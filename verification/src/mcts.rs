use vstd::prelude::*;

use crate::apply::{apply_move, board_after, move_fits, mover_hand_after};
use crate::check::{in_check, is_in_check};
use crate::eval::{evaluate, evaluation};
use crate::movegen::{at, get_all_legal_moves, legal_moves};
use crate::search::{
    captures_fit, player, sort_by_score_desc,
    sort_desc,
};
use crate::types::{
    abs_piece, all_shape_ok, board_get, kind_of, move_shape_ok, piece_value, value_of, Board,
    GameVariant, Hand, ShogiMove, EMPTY, GOTE, MOVE_TYPE_MOVE, MOVE_TYPE_PROMOTE_NIN, SENTE,
};

verus! {

broadcast use vstd::seq_lib::group_to_multiset_ensures;

/// Most moves whose outcome a playout step evaluates.
pub const SIM_MOVE_LIMIT: usize = 12;

/// Plies played in a guided playout.
pub const SIM_DEPTH: u8 = 4;

/// The board and hands after `owner` plays `m`.
pub open spec fn position_after(
    b: Seq<i8>,
    m: ShogiMove,
    sh: Seq<u8>,
    gh: Seq<u8>,
    owner: i8,
    variant: GameVariant,
) -> (Seq<i8>, Seq<u8>, Seq<u8>) {
    (
        board_after(b, m, owner),
        if owner == SENTE {
            mover_hand_after(sh, b, m, variant)
        } else {
            sh
        },
        if owner == SENTE {
            gh
        } else {
            mover_hand_after(gh, b, m, variant)
        },
    )
}

/// Static evaluation of the position after `owner` plays `m`.
pub open spec fn value_after(
    b: Seq<i8>,
    m: ShogiMove,
    sh: Seq<u8>,
    gh: Seq<u8>,
    owner: i8,
    variant: GameVariant,
) -> int {
    let a = position_after(b, m, sh, gh, owner, variant);
    evaluation(a.0, a.1, a.2, variant)
}

pub open spec fn improves(a: int, b: int, maximizing: bool) -> bool {
    if maximizing {
        a > b
    } else {
        a < b
    }
}

/// Index of the first best value (highest when maximizing, else lowest).
pub open spec fn first_best(vals: Seq<int>, maximizing: bool) -> int
    decreases vals.len(),
{
    if vals.len() <= 1 {
        0
    } else {
        let j = first_best(vals.drop_last(), maximizing);
        if improves(vals.last(), vals[j], maximizing) {
            vals.len() - 1
        } else {
            j
        }
    }
}

pub proof fn lemma_first_best_range(vals: Seq<int>, maximizing: bool)
    requires
        vals.len() > 0,
    ensures
        0 <= first_best(vals, maximizing) < vals.len(),
    decreases vals.len(),
{
    if vals.len() > 1 {
        lemma_first_best_range(vals.drop_last(), maximizing);
    }
}

/// The first of the moves `ms` whose resulting position evaluates best for
/// the mover.
pub open spec fn best_of(
    ms: Seq<ShogiMove>,
    b: Seq<i8>,
    sh: Seq<u8>,
    gh: Seq<u8>,
    owner: i8,
    maximizing: bool,
    variant: GameVariant,
) -> ShogiMove {
    ms[first_best(
        ms.map_values(|m: ShogiMove| value_after(b, m, sh, gh, owner, variant)),
        maximizing,
    )]
}

/// Pick the move whose resulting position evaluates best.
pub fn pick_best_move(
    moves: &[ShogiMove],
    board: &Board,
    s_hand: &Hand,
    g_hand: &Hand,
    owner: i8,
    maximizing: bool,
    variant: GameVariant,
) -> (res: ShogiMove)
    requires
        moves@.len() > 0,
        forall|i: int|
            0 <= i < moves@.len() ==> move_fits(board@, #[trigger] moves@[i], s_hand@, g_hand@, owner, variant),
    ensures
        res == best_of(moves@, board@, s_hand@, g_hand@, owner, maximizing, variant),
        moves@.contains(res),
{
    let ghost vals = moves@.map_values(
        |m: ShogiMove| value_after(board@, m, s_hand@, g_hand@, owner, variant),
    );
    let mut best_score = if maximizing {
        i32::MIN
    } else {
        i32::MAX
    };
    let mut best_idx: usize = 0;
    let mut i: usize = 0;
    while i < moves.len()
        invariant
            0 <= i <= moves@.len(),
            vals == moves@.map_values(
                |m: ShogiMove| value_after(board@, m, s_hand@, g_hand@, owner, variant),
            ),
            forall|k: int|
                0 <= k < moves@.len() ==> move_fits(board@, #[trigger] moves@[k], s_hand@, g_hand@, owner, variant),
            i == 0 ==> best_idx == 0 && best_score == (if maximizing {
                i32::MIN
            } else {
                i32::MAX
            }),
            i > 0 ==> best_idx < i && best_idx == first_best(vals.take(i as int), maximizing)
                && best_score == vals[best_idx as int],
        decreases moves@.len() - i,
    {
        let m = moves[i];
        proof {
            assert(vals.take(i as int + 1).drop_last() =~= vals.take(i as int));
        }
        let (nb, nsh, ngh) = apply_move(board, &m, s_hand, g_hand, owner, variant);
        let score = evaluate(&nb, &nsh, &ngh, variant);
        assert(score == vals[i as int]);
        if (maximizing && score > best_score) || (!maximizing && score < best_score) {
            best_score = score;
            best_idx = i;
        }
        i += 1;
    }
    proof {
        assert(vals.take(moves@.len() as int) =~= vals);
        assert(moves@[best_idx as int] == moves@[best_idx as int]);
    }
    moves[best_idx]
}

/// Pick, among the referenced moves, the one whose resulting position
/// evaluates best.
pub fn pick_best_move_subset(
    moves: &[&ShogiMove],
    board: &Board,
    s_hand: &Hand,
    g_hand: &Hand,
    owner: i8,
    maximizing: bool,
    variant: GameVariant,
) -> (res: ShogiMove)
    requires
        moves@.len() > 0,
        forall|i: int|
            0 <= i < moves@.len() ==> move_fits(board@, *#[trigger] moves@[i], s_hand@, g_hand@, owner, variant),
    ensures
        res == best_of(
            moves@.map_values(|m: &ShogiMove| *m),
            board@,
            s_hand@,
            g_hand@,
            owner,
            maximizing,
            variant,
        ),
        exists|i: int| 0 <= i < moves@.len() && res == *moves@[i],
{
    let ghost ms = moves@.map_values(|m: &ShogiMove| *m);
    let ghost vals = ms.map_values(
        |m: ShogiMove| value_after(board@, m, s_hand@, g_hand@, owner, variant),
    );
    let mut best_score = if maximizing {
        i32::MIN
    } else {
        i32::MAX
    };
    let mut best_idx: usize = 0;
    let mut i: usize = 0;
    while i < moves.len()
        invariant
            0 <= i <= moves@.len(),
            ms == moves@.map_values(|m: &ShogiMove| *m),
            vals == ms.map_values(
                |m: ShogiMove| value_after(board@, m, s_hand@, g_hand@, owner, variant),
            ),
            forall|k: int|
                0 <= k < moves@.len() ==> move_fits(board@, *#[trigger] moves@[k], s_hand@, g_hand@, owner, variant),
            i == 0 ==> best_idx == 0 && best_score == (if maximizing {
                i32::MIN
            } else {
                i32::MAX
            }),
            i > 0 ==> best_idx < i && best_idx == first_best(vals.take(i as int), maximizing)
                && best_score == vals[best_idx as int],
        decreases moves@.len() - i,
    {
        let m = *moves[i];
        proof {
            assert(vals.take(i as int + 1).drop_last() =~= vals.take(i as int));
        }
        let (nb, nsh, ngh) = apply_move(board, &m, s_hand, g_hand, owner, variant);
        let score = evaluate(&nb, &nsh, &ngh, variant);
        assert(score == vals[i as int]);
        if (maximizing && score > best_score) || (!maximizing && score < best_score) {
            best_score = score;
            best_idx = i;
        }
        i += 1;
    }
    proof {
        assert(vals.take(moves@.len() as int) =~= vals);
    }
    *moves[best_idx]
}

/// Quick priority of a move in a playout: captures (by victim value), then
/// promotions, then NIN promotions.
pub open spec fn sim_priority(m: ShogiMove, b: Seq<i8>) -> int {
    let target = at(b, m.tr as int, m.tc as int);
    (if m.move_type == MOVE_TYPE_MOVE && target != EMPTY {
        1000 + value_of(kind_of(target))
    } else {
        0
    }) + (if m.promote {
        500int
    } else {
        0
    }) + (if m.move_type == MOVE_TYPE_PROMOTE_NIN {
        300int
    } else {
        0
    })
}

pub fn sim_move_priority(m: &ShogiMove, board: &Board) -> (s: i32)
    requires
        move_shape_ok(*m),
    ensures
        s == sim_priority(*m, board@),
{
    let mut s: i32 = 0;
    if m.move_type == MOVE_TYPE_MOVE {
        let target = board_get(board, m.tr as usize, m.tc as usize);
        if target != EMPTY {
            s += 1000 + piece_value(abs_piece(target));
        }
    }
    if m.promote {
        s += 500;
    }
    if m.move_type == MOVE_TYPE_PROMOTE_NIN {
        s += 300;
    }
    s
}

pub fn moves_match(
    a: &ShogiMove,
    mt: u8,
    fr: u8,
    fc: u8,
    tr: u8,
    tc: u8,
    promote: bool,
    piece: i8,
) -> (res: bool)
    ensures
        res == (*a == ShogiMove { move_type: mt, fr, fc, tr, tc, promote, piece }),
{
    a.move_type == mt && a.fr == fr && a.fc == fc && a.tr == tr && a.tc == tc && a.promote
        == promote && a.piece == piece
}

/// (priority, index) of each move.
pub open spec fn priority_keys(ms: Seq<ShogiMove>, b: Seq<i8>) -> Seq<(i32, usize)> {
    Seq::new(ms.len(), |i: int| (sim_priority(ms[i], b) as i32, i as usize))
}

/// The moves a playout step evaluates: all of them when there are at most
/// twelve, else the twelve of highest priority (earlier moves first among
/// equal priorities), in order of priority.
pub open spec fn sim_candidates(ms: Seq<ShogiMove>, b: Seq<i8>) -> Seq<ShogiMove> {
    if ms.len() <= SIM_MOVE_LIMIT {
        ms
    } else {
        sort_desc(priority_keys(ms, b)).take(SIM_MOVE_LIMIT as int).map_values(
            |p: (i32, usize)| ms[p.1 as int],
        )
    }
}

/// How a guided playout ended.
#[derive(Clone, Copy, Debug, PartialEq, Eq, Structural)]
pub enum PlayoutOutcome {
    /// The side to move (sente when `maximizing`) was checkmated.
    Checkmated { maximizing: bool },
    /// The side to move had no legal move while not in check.
    Stalemate,
    /// The playout ran its full length; the final position's evaluation.
    Evaluated(i32),
}

/// A guided playout of `n` plies: at each ply the mover plays the candidate
/// move that evaluates best for them.
pub open spec fn playout(
    b: Seq<i8>,
    sh: Seq<u8>,
    gh: Seq<u8>,
    maximizing: bool,
    variant: GameVariant,
    n: nat,
) -> PlayoutOutcome
    decreases n,
{
    if n == 0 {
        PlayoutOutcome::Evaluated(evaluation(b, sh, gh, variant) as i32)
    } else {
        let owner = player(maximizing);
        let ms = legal_moves(b, owner, sh, gh, variant);
        if ms.len() == 0 {
            if in_check(b, owner) {
                PlayoutOutcome::Checkmated { maximizing }
            } else {
                PlayoutOutcome::Stalemate
            }
        } else {
            let m = best_of(sim_candidates(ms, b), b, sh, gh, owner, maximizing, variant);
            let a = position_after(b, m, sh, gh, owner, variant);
            playout(a.0, a.1, a.2, !maximizing, variant, (n - 1) as nat)
        }
    }
}

/// The twelve highest-priority moves, best first.
fn top_candidates<'a>(moves: &'a Vec<ShogiMove>, board: &Board) -> (subset: Vec<&'a ShogiMove>)
    requires
        moves@.len() > SIM_MOVE_LIMIT,
        all_shape_ok(moves@),
    ensures
        subset@.map_values(|m: &ShogiMove| *m) == sim_candidates(moves@, board@),
        subset@.len() == SIM_MOVE_LIMIT,
        forall|i: int| 0 <= i < subset@.len() ==> moves@.contains(*#[trigger] subset@[i]),
{
    let mut scored: Vec<(i32, usize)> = Vec::new();
    let mut i: usize = 0;
    while i < moves.len()
        invariant
            0 <= i <= moves@.len(),
            all_shape_ok(moves@),
            scored@ == priority_keys(moves@, board@).take(i as int),
        decreases moves@.len() - i,
    {
        assert(move_shape_ok(moves@[i as int]));
        let p = sim_move_priority(&moves[i], board);
        scored.push((p, i));
        assert(scored@ =~= priority_keys(moves@, board@).take(i as int + 1));
        i += 1;
    }
    assert(scored@ =~= priority_keys(moves@, board@));
    let ghost keys = scored@;
    let mut sorted = sort_by_score_desc(&scored);
    sorted.truncate(SIM_MOVE_LIMIT);
    let mut subset: Vec<&ShogiMove> = Vec::new();
    let mut j: usize = 0;
    while j < sorted.len()
        invariant
            0 <= j <= sorted@.len(),
            sorted@.len() == SIM_MOVE_LIMIT,
            keys == priority_keys(moves@, board@),
            sorted@ == sort_desc(keys).take(SIM_MOVE_LIMIT as int),
            forall|k: int| 0 <= k < sorted@.len() ==> keys.contains(#[trigger] sorted@[k]),
            subset@.len() == j,
            forall|k: int| 0 <= k < j ==> *#[trigger] subset@[k] == moves@[sorted@[k].1 as int],
            forall|k: int| 0 <= k < j ==> moves@.contains(*#[trigger] subset@[k]),
        decreases sorted@.len() - j,
    {
        let idx = sorted[j].1;
        proof {
            assert(keys.contains(sorted@[j as int]));
            let w = choose|w: int| 0 <= w < keys.len() && keys[w] == sorted@[j as int];
            assert(keys[w] == (sim_priority(moves@[w], board@) as i32, w as usize));
            assert(sorted@[j as int].1 < moves@.len());
        }
        subset.push(&moves[idx]);
        j += 1;
    }
    assert(subset@.map_values(|m: &ShogiMove| *m) =~= sim_candidates(moves@, board@));
    subset
}

/// Guided playout of `SIM_DEPTH` plies from the given position.
pub fn guided_playout(
    board: &Board,
    s_hand: &Hand,
    g_hand: &Hand,
    maximizing: bool,
    variant: GameVariant,
) -> (out: PlayoutOutcome)
    requires
        captures_fit(board@, s_hand@, g_hand@, maximizing, variant, SIM_DEPTH as nat),
    ensures
        out == playout(board@, s_hand@, g_hand@, maximizing, variant, SIM_DEPTH as nat),
{
    let mut cur_board = *board;
    let mut cur_sh = *s_hand;
    let mut cur_gh = *g_hand;
    let mut cur_maximizing = maximizing;
    let mut k: u8 = 0;
    while k < SIM_DEPTH
        invariant
            0 <= k <= SIM_DEPTH,
            captures_fit(cur_board@, cur_sh@, cur_gh@, cur_maximizing, variant, (SIM_DEPTH - k) as nat),
            playout(board@, s_hand@, g_hand@, maximizing, variant, SIM_DEPTH as nat) == playout(
                cur_board@,
                cur_sh@,
                cur_gh@,
                cur_maximizing,
                variant,
                (SIM_DEPTH - k) as nat,
            ),
        decreases SIM_DEPTH - k,
    {
        let owner = if cur_maximizing {
            SENTE
        } else {
            GOTE
        };
        let moves = get_all_legal_moves(&cur_board, owner, &cur_sh, &cur_gh, variant);
        if moves.len() == 0 {
            // Checkmate or stalemate.
            if is_in_check(&cur_board, owner) {
                return PlayoutOutcome::Checkmated { maximizing: cur_maximizing };
            }
            return PlayoutOutcome::Stalemate;
        }
        proof {
            reveal(captures_fit);
            assert(player(cur_maximizing) == owner);
            assert forall|i: int| 0 <= i < moves@.len() implies move_fits(
                cur_board@,
                #[trigger] moves@[i],
                cur_sh@,
                cur_gh@,
                owner,
                variant,
            ) by {
                assert(legal_moves(cur_board@, player(cur_maximizing), cur_sh@, cur_gh@, variant)[i] == moves@[i]);
            }
        }
        let best_move = if moves.len() <= SIM_MOVE_LIMIT {
            // Few enough moves: evaluate all of them.
            pick_best_move(
                moves.as_slice(),
                &cur_board,
                &cur_sh,
                &cur_gh,
                owner,
                cur_maximizing,
                variant,
            )
        } else {
            // Too many: only the highest-priority ones.
            let subset = top_candidates(&moves, &cur_board);
            proof {
                assert forall|i: int| 0 <= i < subset@.len() implies move_fits(
                    cur_board@,
                    *#[trigger] subset@[i],
                    cur_sh@,
                    cur_gh@,
                    owner,
                    variant,
                ) by {
                    assert(moves@.contains(*subset@[i]));
                }
            }
            let m = pick_best_move_subset(
                subset.as_slice(),
                &cur_board,
                &cur_sh,
                &cur_gh,
                owner,
                cur_maximizing,
                variant,
            );
            proof {
                let i = choose|i: int| 0 <= i < subset@.len() && m == *subset@[i];
                assert(moves@.contains(*subset@[i]));
            }
            m
        };
        proof {
            reveal(captures_fit);
            let w = choose|w: int| 0 <= w < moves@.len() && moves@[w] == best_move;
            assert(legal_moves(cur_board@, player(cur_maximizing), cur_sh@, cur_gh@, variant)[w] == best_move);
        }
        let (nb, nsh, ngh) = apply_move(&cur_board, &best_move, &cur_sh, &cur_gh, owner, variant);
        cur_board = nb;
        cur_sh = nsh;
        cur_gh = ngh;
        cur_maximizing = !cur_maximizing;
        k += 1;
    }
    PlayoutOutcome::Evaluated(evaluate(&cur_board, &cur_sh, &cur_gh, variant))
}

/// Where a kept tree's root goes when a move is played from it.
#[derive(Clone, Copy, Debug, PartialEq, Eq, Structural)]
pub enum RerootTarget {
    /// The child at this index was reached by the move.
    Expanded(usize),
    /// The move is the unexpanded move at this index.
    Unexpanded(usize),
    /// The root offers no such move.
    Missing,
}

/// Finds the move `(mt, fr, fc, tr, tc, promote, piece)` among the moves that
/// led to a root's children (`None` for a child reached by no move), and
/// failing that among its unexpanded moves; the first match wins.
pub fn find_reroot(
    children: &[Option<ShogiMove>],
    unexpanded: &[ShogiMove],
    mt: u8,
    fr: u8,
    fc: u8,
    tr: u8,
    tc: u8,
    promote: bool,
    piece: i8,
) -> (t: RerootTarget)
    ensures
        ({
            let played = ShogiMove { move_type: mt, fr, fc, tr, tc, promote, piece };
            match t {
                RerootTarget::Expanded(i) => {
                    &&& i < children@.len()
                    &&& children@[i as int] == Some(played)
                    &&& forall|j: int| 0 <= j < i ==> children@[j] != Some(played)
                },
                RerootTarget::Unexpanded(i) => {
                    &&& forall|j: int| 0 <= j < children@.len() ==> children@[j] != Some(played)
                    &&& i < unexpanded@.len()
                    &&& unexpanded@[i as int] == played
                    &&& forall|j: int| 0 <= j < i ==> unexpanded@[j] != played
                },
                RerootTarget::Missing => {
                    &&& forall|j: int| 0 <= j < children@.len() ==> children@[j] != Some(played)
                    &&& forall|j: int| 0 <= j < unexpanded@.len() ==> unexpanded@[j] != played
                },
            }
        }),
{
    let ghost played = ShogiMove { move_type: mt, fr, fc, tr, tc, promote, piece };
    let mut i: usize = 0;
    while i < children.len()
        invariant
            0 <= i <= children@.len(),
            played == (ShogiMove { move_type: mt, fr, fc, tr, tc, promote, piece }),
            forall|j: int| 0 <= j < i ==> children@[j] != Some(played),
        decreases children@.len() - i,
    {
        match &children[i] {
            Some(m) => {
                if moves_match(m, mt, fr, fc, tr, tc, promote, piece) {
                    return RerootTarget::Expanded(i);
                }
            },
            None => {},
        }
        i += 1;
    }
    let mut k: usize = 0;
    while k < unexpanded.len()
        invariant
            0 <= k <= unexpanded@.len(),
            played == (ShogiMove { move_type: mt, fr, fc, tr, tc, promote, piece }),
            forall|j: int| 0 <= j < children@.len() ==> children@[j] != Some(played),
            forall|j: int| 0 <= j < k ==> unexpanded@[j] != played,
        decreases unexpanded@.len() - k,
    {
        if moves_match(&unexpanded[k], mt, fr, fc, tr, tc, promote, piece) {
            return RerootTarget::Unexpanded(k);
        }
        k += 1;
    }
    RerootTarget::Missing
}

/// Index of the most visited child: the first one with the highest visit
/// count.
pub fn most_visited(visits: &[u32]) -> (best: usize)
    requires
        visits@.len() > 0,
    ensures
        best < visits@.len(),
        forall|i: int| 0 <= i < visits@.len() ==> visits@[i] <= visits@[best as int],
        forall|i: int| 0 <= i < best ==> visits@[i] < visits@[best as int],
{
    let mut best_idx: usize = 0;
    let mut best_visits: u32 = 0;
    let mut i: usize = 0;
    while i < visits.len()
        invariant
            0 <= i <= visits@.len(),
            visits@.len() > 0,
            best_idx < visits@.len(),
            i > 0 ==> best_idx < i,
            i == 0 ==> best_idx == 0 && best_visits == 0,
            i > 0 ==> best_visits == visits@[best_idx as int],
            forall|j: int| 0 <= j < i ==> visits@[j] <= best_visits,
            forall|j: int| 0 <= j < best_idx ==> visits@[j] < best_visits,
            best_visits == 0 ==> best_idx == 0,
        decreases visits@.len() - i,
    {
        if visits[i] > best_visits {
            best_visits = visits[i];
            best_idx = i;
        }
        i += 1;
    }
    proof {
        if best_visits == 0 {
            assert(visits@[0] <= best_visits);
        }
    }
    best_idx
}

} // verus!
