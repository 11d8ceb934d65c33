use std::cell::Cell;
use shogi_engine::mcts::{
    find_reroot, RerootTarget,
    guided_playout, most_visited, moves_match, pick_best_move, pick_best_move_subset, sim_move_priority,
    PlayoutOutcome,
};
use shogi_engine::movegen::get_all_legal_moves;
use shogi_engine::search::{iterative_deepening, minimax, SearchState};
use shogi_engine::tt::{hash_board, TranspositionTable, TT_ALPHA, TT_BETA, TT_EXACT};
use shogi_engine::types::{
    Board, GameVariant, Hand, ShogiMove, FU, GI, HI, KA, KI, NIN, OU, SENTE, GOTE,
};

fn empty() -> Board {
    [0i8; 81]
}

fn put(b: &mut Board, r: usize, c: usize, v: i8) {
    b[r * 9 + c] = v;
}

const NO_HAND: Hand = [0u8; 8];

fn no_clock() -> u64 {
    0
}

#[test]
fn tt_store_then_probe() {
    let mut tt = TranspositionTable::new(4);
    assert_eq!(tt.probe(7, 1, -100, 100), None);
    tt.store(7, 3, 42, TT_EXACT, Some(5));
    assert_eq!(tt.probe(7, 3, -100, 100), Some((42, Some(5))));
    assert_eq!(tt.probe(7, 1, -100, 100), Some((42, Some(5))));
    assert_eq!(tt.probe(7, 4, -100, 100), None);
    // Same slot, other position.
    assert_eq!(tt.probe(7 + 16, 1, -100, 100), None);
    assert_eq!(tt.get_best_move(7), Some(5));
    assert_eq!(tt.get_best_move(23), None);
}

#[test]
fn tt_bounds() {
    let mut tt = TranspositionTable::new(3);
    tt.store(1, 2, 10, TT_ALPHA, None);
    assert_eq!(tt.probe(1, 2, 20, 50), Some((20, None)));
    assert_eq!(tt.probe(1, 2, 5, 50), None);
    tt.store(2, 2, 90, TT_BETA, Some(0));
    assert_eq!(tt.probe(2, 2, 0, 50), Some((50, Some(0))));
    assert_eq!(tt.probe(2, 2, 0, 100), None);
}

#[test]
fn tt_keeps_deeper_entries_and_clear_hides_them() {
    let mut tt = TranspositionTable::new(4);
    tt.store(3, 5, 1, TT_EXACT, None);
    tt.store(3, 2, 2, TT_EXACT, None);
    assert_eq!(tt.probe(3, 1, 0, 0), Some((1, None)));
    tt.clear();
    assert_eq!(tt.generation, 1);
    assert_eq!(tt.probe(3, 1, 0, 0), None);
    // The best move survives a clear.
    tt.store(4, 1, 9, TT_EXACT, Some(2));
    tt.clear();
    assert_eq!(tt.get_best_move(4), Some(2));
    // An older entry is replaced whatever its depth.
    tt.store(3, 1, 7, TT_EXACT, None);
    assert_eq!(tt.probe(3, 1, 0, 0), Some((7, None)));
}

fn reference_hash(b: &Board, sh: &Hand, gh: &Hand, maximizing: bool) -> u32 {
    let mut h: i32 = if maximizing { 1 } else { 0 };
    for v in b.iter() {
        h = h.wrapping_mul(31).wrapping_add(*v as i32 + 50);
    }
    for i in 0..8 {
        h = h.wrapping_mul(31).wrapping_add(sh[i] as i32);
        h = h.wrapping_mul(31).wrapping_add(gh[i] as i32);
    }
    h as u32
}

#[test]
fn hash_matches_polynomial() {
    let mut b = empty();
    put(&mut b, 0, 0, -OU);
    put(&mut b, 8, 8, OU);
    put(&mut b, 3, 3, -HI);
    let mut sh: Hand = [0u8; 8];
    sh[6] = 4;
    assert_eq!(hash_board(&b, &sh, &NO_HAND, true), reference_hash(&b, &sh, &NO_HAND, true));
    assert_eq!(hash_board(&b, &sh, &NO_HAND, false), reference_hash(&b, &sh, &NO_HAND, false));
    assert_ne!(hash_board(&b, &sh, &NO_HAND, true), hash_board(&b, &sh, &NO_HAND, false));
}

fn mate_in_one() -> Board {
    // Gote's king on (0, 4). Two moves mate on (1, 4): the gold from (2, 5)
    // (protected by the pawn) and the pawn promoting (protected by the
    // gold); the promotion is ordered first.
    let mut b = empty();
    put(&mut b, 0, 4, -OU);
    put(&mut b, 2, 4, FU);
    put(&mut b, 2, 5, KI);
    put(&mut b, 8, 0, OU);
    b
}

#[test]
fn minimax_finds_mate_in_one() {
    let b = mate_in_one();
    let mut state = SearchState::new(TranspositionTable::new(8));
    let (score, m) =
        minimax(&mut state, &no_clock, &b, &NO_HAND, &NO_HAND, 2, i32::MIN + 1, i32::MAX - 1, true, 2, GameVariant::Normal);
    assert_eq!(m, Some(ShogiMove::new_move(2, 4, 1, 4, true)));
    assert!(score > 90000);
}

#[test]
fn minimax_depth_zero_is_evaluation() {
    let b = mate_in_one();
    let mut state = SearchState::new(TranspositionTable::new(4));
    let (score, m) =
        minimax(&mut state, &no_clock, &b, &NO_HAND, &NO_HAND, 0, -1000, 1000, true, 0, GameVariant::Normal);
    assert_eq!(m, None);
    assert_eq!(score, shogi_engine::eval::evaluate(&b, &NO_HAND, &NO_HAND, GameVariant::Normal));
}

#[test]
fn minimax_scores_checkmated_side() {
    // Gote to move, already mated.
    let mut b = empty();
    put(&mut b, 0, 4, -OU);
    put(&mut b, 1, 4, KI);
    put(&mut b, 2, 4, FU);
    put(&mut b, 8, 4, OU);
    let mut state = SearchState::new(TranspositionTable::new(4));
    let (score, m) =
        minimax(&mut state, &no_clock, &b, &NO_HAND, &NO_HAND, 3, i32::MIN + 1, i32::MAX - 1, false, 3, GameVariant::Normal);
    assert_eq!(m, None);
    assert_eq!(score, 99999 - 300);
}

#[test]
fn iterative_deepening_stops_on_mate() {
    let b = mate_in_one();
    let mut state = SearchState::new(TranspositionTable::new(8));
    let (score, m) =
        iterative_deepening(&mut state, &no_clock, &b, &NO_HAND, &NO_HAND, 4, true, 0, GameVariant::Normal);
    assert_eq!(m, Some(ShogiMove::new_move(2, 4, 1, 4, true)));
    assert!(score > 90000);
    assert_eq!(state.time_limit, 0);
    assert!(!state.aborted);
}

#[test]
fn iterative_deepening_with_no_depth() {
    let b = mate_in_one();
    let mut state = SearchState::new(TranspositionTable::new(4));
    let res = iterative_deepening(&mut state, &no_clock, &b, &NO_HAND, &NO_HAND, 0, true, 0, GameVariant::Normal);
    assert_eq!(res, (0, None));
}

#[test]
fn iterative_deepening_when_mated_finds_nothing() {
    // Gote to move, already mated: the mate score is not kept.
    let mut b = empty();
    put(&mut b, 0, 4, -OU);
    put(&mut b, 1, 4, KI);
    put(&mut b, 2, 4, FU);
    put(&mut b, 8, 4, OU);
    let mut state = SearchState::new(TranspositionTable::new(4));
    let res = iterative_deepening(&mut state, &no_clock, &b, &NO_HAND, &NO_HAND, 3, false, 0, GameVariant::Normal);
    assert_eq!(res, (0, None));
}

#[test]
fn search_state_starts_idle() {
    let s = SearchState::new(TranspositionTable::new(2));
    assert_eq!(s.nodes, 0);
    assert_eq!(s.time_limit, 0);
    assert!(!s.aborted);
}

#[test]
fn playout_helpers() {
    let mut b = empty();
    put(&mut b, 4, 4, GI);
    put(&mut b, 3, 4, -KA);
    let cap = ShogiMove::new_move(4, 4, 3, 4, false);
    assert_eq!(sim_move_priority(&cap, &b), 1000 + 650);
    let prom = ShogiMove::new_move(4, 4, 2, 4, true);
    assert_eq!(sim_move_priority(&prom, &b), 500);
    assert_eq!(sim_move_priority(&ShogiMove::new_promote_nin(1, 1), &b), 300);
    assert!(moves_match(&cap, 0, 4, 4, 3, 4, false, 0));
    assert!(!moves_match(&cap, 0, 4, 4, 3, 4, true, 0));
}

#[test]
fn pick_best_prefers_capture() {
    let mut b = empty();
    put(&mut b, 8, 0, OU);
    put(&mut b, 0, 8, -OU);
    put(&mut b, 4, 4, GI);
    put(&mut b, 3, 4, -KA);
    let moves = get_all_legal_moves(&b, SENTE, &NO_HAND, &NO_HAND, GameVariant::Normal);
    let best = pick_best_move(&moves, &b, &NO_HAND, &NO_HAND, SENTE, true, GameVariant::Normal);
    assert_eq!(best, ShogiMove::new_move(4, 4, 3, 4, false));
    let refs: Vec<&ShogiMove> = moves.iter().collect();
    let best2 = pick_best_move_subset(&refs, &b, &NO_HAND, &NO_HAND, SENTE, true, GameVariant::Normal);
    assert_eq!(best2, best);
    // For gote (minimising) the bishop takes nothing but runs.
    let gm = get_all_legal_moves(&b, GOTE, &NO_HAND, &NO_HAND, GameVariant::Normal);
    let g = pick_best_move(&gm, &b, &NO_HAND, &NO_HAND, GOTE, false, GameVariant::Normal);
    assert!(gm.contains(&g));
}

#[test]
fn playout_reports_mate() {
    let mut b = empty();
    put(&mut b, 0, 4, -OU);
    put(&mut b, 1, 4, KI);
    put(&mut b, 2, 4, FU);
    put(&mut b, 8, 4, OU);
    assert_eq!(
        guided_playout(&b, &NO_HAND, &NO_HAND, false, GameVariant::Normal),
        PlayoutOutcome::Checkmated { maximizing: false }
    );
    let mut s = empty();
    put(&mut s, 0, 0, -OU);
    put(&mut s, 8, 8, OU);
    match guided_playout(&s, &NO_HAND, &NO_HAND, true, GameVariant::Normal) {
        PlayoutOutcome::Evaluated(_) => {}
        other => panic!("unexpected {:?}", other),
    }
}

#[test]
fn most_visited_picks_first_maximum() {
    assert_eq!(most_visited(&[3, 7, 2, 7]), 1);
    assert_eq!(most_visited(&[0, 0, 0]), 0);
    assert_eq!(most_visited(&[5]), 0);
}

#[test]
fn search_aborts_when_the_clock_runs_out() {
    let b = mate_in_one();
    let mut state = SearchState::new(TranspositionTable::new(4));
    state.time_limit = 10;
    state.start_time = 100;
    state.nodes = 1023; // the next node reads the clock
    let late = || 200u64;
    let (score, m) =
        minimax(&mut state, &late, &b, &NO_HAND, &NO_HAND, 3, -1000, 1000, true, 3, GameVariant::Normal);
    assert!(state.aborted);
    assert_eq!(m, None);
    assert_eq!(score, shogi_engine::eval::evaluate(&b, &NO_HAND, &NO_HAND, GameVariant::Normal));
    // Once aborted, every further call just evaluates.
    let (_, m2) =
        minimax(&mut state, &no_clock, &b, &NO_HAND, &NO_HAND, 3, -1000, 1000, true, 3, GameVariant::Normal);
    assert_eq!(m2, None);
}

#[test]
fn deepening_stops_after_the_budget() {
    let b = mate_in_one();
    let mut state = SearchState::new(TranspositionTable::new(8));
    let calls = Cell::new(0u64);
    // Starts at 0; every later reading is far past the budget.
    let clock = || {
        let n = calls.get();
        calls.set(n + 1);
        if n == 0 { 0 } else { 1_000_000 }
    };
    let (_, m) = iterative_deepening(&mut state, &clock, &b, &NO_HAND, &NO_HAND, 5, true, 50, GameVariant::Normal);
    // Depth 1 completes and finds a move; the clock then stops the search.
    assert!(m.is_some());
    assert_eq!(state.time_limit, 50);
    assert_eq!(calls.get(), 2);
}

#[test]
fn reroot_prefers_expanded_children() {
    let a = ShogiMove::new_move(6, 4, 5, 4, false);
    let b = ShogiMove::new_drop(FU, 4, 4);
    let c = ShogiMove::new_move(6, 0, 5, 0, false);
    let children = vec![None, Some(a), Some(b)];
    let unexpanded = vec![c, b];
    assert_eq!(find_reroot(&children, &unexpanded, 0, 6, 4, 5, 4, false, 0), RerootTarget::Expanded(1));
    assert_eq!(find_reroot(&children, &unexpanded, 1, 255, 255, 4, 4, false, FU), RerootTarget::Expanded(2));
    assert_eq!(find_reroot(&children, &unexpanded, 0, 6, 0, 5, 0, false, 0), RerootTarget::Unexpanded(0));
    assert_eq!(find_reroot(&children, &unexpanded, 0, 6, 0, 5, 0, true, 0), RerootTarget::Missing);
    assert_eq!(find_reroot(&[], &[], 0, 6, 0, 5, 0, false, 0), RerootTarget::Missing);
}

#[test]
fn one_ply_search_takes_the_best_evaluation() {
    let mut b = empty();
    put(&mut b, 8, 4, OU);
    put(&mut b, 0, 4, -OU);
    put(&mut b, 5, 2, GI);
    put(&mut b, 4, 2, -KI);
    put(&mut b, 6, 6, HI);
    put(&mut b, 2, 6, -KA);
    for maximizing in [true, false] {
        let owner = if maximizing { SENTE } else { GOTE };
        let moves = get_all_legal_moves(&b, owner, &NO_HAND, &NO_HAND, GameVariant::Normal);
        let values: Vec<i32> = moves
            .iter()
            .map(|m| {
                let (nb, nsh, ngh) =
                    shogi_engine::apply::apply_move(&b, m, &NO_HAND, &NO_HAND, owner, GameVariant::Normal);
                shogi_engine::eval::evaluate(&nb, &nsh, &ngh, GameVariant::Normal)
            })
            .collect();
        let best = if maximizing { *values.iter().max().unwrap() } else { *values.iter().min().unwrap() };
        let mut state = SearchState::new(TranspositionTable::new(6));
        let (score, m) = minimax(
            &mut state, &no_clock, &b, &NO_HAND, &NO_HAND, 1, i32::MIN + 1, i32::MAX - 1, maximizing, 1,
            GameVariant::Normal,
        );
        assert_eq!(score, best);
        let i = moves.iter().position(|x| Some(*x) == m).unwrap();
        assert_eq!(values[i], best);
        assert_eq!(state.nodes, 1 + moves.len() as u64);
    }
}

#[test]
fn hash_sees_every_single_change() {
    let b = mate_in_one();
    let base = hash_board(&b, &NO_HAND, &NO_HAND, true);
    assert_ne!(base, hash_board(&b, &NO_HAND, &NO_HAND, false));
    for k in 0..81 {
        for v in [-18i8, -1, 0, 1, 5, 18, 127, -128] {
            if v == b[k] {
                continue;
            }
            let mut b2 = b;
            b2[k] = v;
            assert_ne!(hash_board(&b2, &NO_HAND, &NO_HAND, true), base);
        }
    }
    for i in 0..8 {
        for v in [1u8, 2, 255] {
            let mut h = NO_HAND;
            h[i] = v;
            assert_ne!(hash_board(&b, &h, &NO_HAND, true), base);
            assert_ne!(hash_board(&b, &NO_HAND, &h, true), base);
        }
    }
}

#[test]
fn full_hands_need_no_room_where_nothing_is_captured() {
    let b = mate_in_one();
    let mut full: Hand = [0u8; 8];
    full[0] = 255;
    assert!(shogi_engine::legality::pieces_in_play(&b, &full, &NO_HAND) > 255);
    // Depth 0: only an evaluation.
    let mut state = SearchState::new(TranspositionTable::new(4));
    let (score, m) = minimax(&mut state, &no_clock, &b, &NO_HAND, &full, 0, -1000, 1000, true, 0, GameVariant::Normal);
    assert_eq!(m, None);
    assert_eq!(score, shogi_engine::eval::evaluate(&b, &NO_HAND, &full, GameVariant::Normal));
    assert_eq!(state.nodes, 1);
}

#[test]
fn pieces_in_play_counts_board_and_hands() {
    let b = mate_in_one();
    let mut sh: Hand = [0u8; 8];
    sh[6] = 3;
    let mut gh: Hand = [0u8; 8];
    gh[2] = 2;
    assert_eq!(shogi_engine::legality::pieces_in_play(&b, &sh, &gh), 4 + 3 + 2);
}

#[test]
fn pieces_that_cannot_move_need_no_coordinates() {
    let b = [0i8; 81];
    assert!(shogi_engine::movegen::get_piece_moves(0, usize::MAX, usize::MAX, &b).is_empty());
    assert!(shogi_engine::movegen::get_piece_moves(NIN, usize::MAX, 3, &b).is_empty());
    assert!(shogi_engine::movegen::get_piece_moves(-NIN, 4, usize::MAX, &b).is_empty());
}

#[test]
fn generation_reads_back() {
    let mut tt = TranspositionTable::new(3);
    assert_eq!(tt.current_generation(), 0);
    tt.clear();
    assert_eq!(tt.current_generation(), tt.generation);
    assert_eq!(tt.current_generation(), 1);
}

fn plain_minimax(b: &Board, sh: &Hand, gh: &Hand, maximizing: bool, depth: u8) -> i32 {
    let variant = GameVariant::Normal;
    if depth == 0 {
        return shogi_engine::eval::evaluate(b, sh, gh, variant);
    }
    let owner = if maximizing { SENTE } else { GOTE };
    let moves = get_all_legal_moves(b, owner, sh, gh, variant);
    if moves.is_empty() {
        if shogi_engine::check::is_in_check(b, owner) {
            return if maximizing { -99999 + (6 - depth as i32) * 100 } else { 99999 - (6 - depth as i32) * 100 };
        }
        return 0;
    }
    let values = moves.iter().map(|m| {
        let (nb, nsh, ngh) = shogi_engine::apply::apply_move(b, m, sh, gh, owner, variant);
        plain_minimax(&nb, &nsh, &ngh, !maximizing, depth - 1)
    });
    if maximizing { values.max().unwrap() } else { values.min().unwrap() }
}

#[test]
fn alpha_beta_without_probes_is_plain_minimax() {
    let mut b = empty();
    put(&mut b, 8, 4, OU);
    put(&mut b, 0, 4, -OU);
    put(&mut b, 5, 2, GI);
    put(&mut b, 4, 2, -KI);
    put(&mut b, 6, 6, HI);
    put(&mut b, 2, 6, -KA);
    for depth in 1..=3u8 {
        for maximizing in [true, false] {
            let mut state = SearchState::new(TranspositionTable::new(10));
            let (score, _) = minimax(
                &mut state, &no_clock, &b, &NO_HAND, &NO_HAND, depth, i32::MIN + 1, i32::MAX - 1, maximizing, 0,
                GameVariant::Normal,
            );
            assert_eq!(score, plain_minimax(&b, &NO_HAND, &NO_HAND, maximizing, depth));
        }
    }
}
