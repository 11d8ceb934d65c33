//! The search computes the plain minimax value: with no table probes and no
//! move left out, alpha-beta with the widest window returns the value that
//! full minimax over the legal moves gives.
use vstd::prelude::*;

use crate::check::in_check;
use crate::eval::evaluation;
use crate::mcts::position_after;
use crate::movegen::legal_moves;
use crate::search::{
    lemma_drops_capped_all, lemma_sort_desc, lists, mate_score, ordering_keys, player,
    recorded_best, scan, search, search_order,
};
use crate::tt::TTEntry;
use crate::types::{GameVariant, ShogiMove, MOVE_TYPE_DROP};

verus! {

broadcast use vstd::seq_lib::group_to_multiset_ensures;

/// Plain minimax value of the position to `depth` plies: the evaluation at
/// depth 0, the mate or stalemate score when the side to move has no legal
/// move, and otherwise the best value of the legal moves for that side.
pub open spec fn minimax_value(
    b: Seq<i8>,
    sh: Seq<u8>,
    gh: Seq<u8>,
    maximizing: bool,
    variant: GameVariant,
    depth: u8,
) -> int
    decreases depth, 1int, 0int,
{
    if depth == 0 {
        evaluation(b, sh, gh, variant)
    } else {
        let legal = legal_moves(b, player(maximizing), sh, gh, variant);
        if legal.len() == 0 {
            if in_check(b, player(maximizing)) {
                mate_score(maximizing, depth)
            } else {
                0
            }
        } else {
            best_child_value(b, sh, gh, maximizing, variant, depth, legal, 0)
        }
    }
}

/// Best minimax value for the side to move over the moves `moves[i..]`.
pub open spec fn best_child_value(
    b: Seq<i8>,
    sh: Seq<u8>,
    gh: Seq<u8>,
    maximizing: bool,
    variant: GameVariant,
    depth: u8,
    moves: Seq<ShogiMove>,
    i: int,
) -> int
    decreases depth, 0int, moves.len() - i,
{
    if depth == 0 || i < 0 || i >= moves.len() {
        0
    } else {
        let a = position_after(b, moves[i], sh, gh, player(maximizing), variant);
        let v = minimax_value(a.0, a.1, a.2, !maximizing, variant, (depth - 1) as u8);
        if i == moves.len() - 1 {
            v
        } else {
            let rest = best_child_value(b, sh, gh, maximizing, variant, depth, moves, i + 1);
            if maximizing {
                if v >= rest {
                    v
                } else {
                    rest
                }
            } else {
                if v <= rest {
                    v
                } else {
                    rest
                }
            }
        }
    }
}

/// Minimax value of the position after `m`.
pub open spec fn child_value(
    b: Seq<i8>,
    sh: Seq<u8>,
    gh: Seq<u8>,
    maximizing: bool,
    variant: GameVariant,
    depth: u8,
    m: ShogiMove,
) -> int {
    let a = position_after(b, m, sh, gh, player(maximizing), variant);
    minimax_value(a.0, a.1, a.2, !maximizing, variant, (depth - 1) as u8)
}

/// Within `depth` plies no node leaves a move out: within two plies of the
/// leaves, where the search keeps at most eight drops, no legal move is a
/// drop (and every move list fits a machine index).
#[verifier::opaque]
pub open spec fn nothing_pruned(
    b: Seq<i8>,
    sh: Seq<u8>,
    gh: Seq<u8>,
    maximizing: bool,
    variant: GameVariant,
    depth: u8,
) -> bool
    decreases depth,
{
    depth == 0 || (legal_moves(b, player(maximizing), sh, gh, variant).len() <= usize::MAX
        && forall|i: int|
        0 <= i < legal_moves(b, player(maximizing), sh, gh, variant).len() ==> {
            let m = #[trigger] legal_moves(b, player(maximizing), sh, gh, variant)[i];
            let a = position_after(b, m, sh, gh, player(maximizing), variant);
            (depth <= 2 ==> m.move_type != MOVE_TYPE_DROP) && nothing_pruned(
                a.0,
                a.1,
                a.2,
                !maximizing,
                variant,
                (depth - 1) as u8,
            )
        })
}

proof fn lemma_best_child_value(
    b: Seq<i8>,
    sh: Seq<u8>,
    gh: Seq<u8>,
    maximizing: bool,
    variant: GameVariant,
    depth: u8,
    moves: Seq<ShogiMove>,
    i: int,
)
    requires
        depth > 0,
        0 <= i < moves.len(),
    ensures
        forall|k: int|
            i <= k < moves.len() ==> (if maximizing {
                #[trigger] child_value(b, sh, gh, maximizing, variant, depth, moves[k])
                    <= best_child_value(b, sh, gh, maximizing, variant, depth, moves, i)
            } else {
                child_value(b, sh, gh, maximizing, variant, depth, moves[k]) >= best_child_value(
                    b,
                    sh,
                    gh,
                    maximizing,
                    variant,
                    depth,
                    moves,
                    i,
                )
            }),
        exists|k: int|
            i <= k < moves.len() && #[trigger] child_value(b, sh, gh, maximizing, variant, depth, moves[k])
                == best_child_value(b, sh, gh, maximizing, variant, depth, moves, i),
    decreases moves.len() - i,
{
    assert(child_value(b, sh, gh, maximizing, variant, depth, moves[i]) == child_value(b, sh, gh, maximizing, variant, depth, moves[i]));
    if i < moves.len() - 1 {
        lemma_best_child_value(b, sh, gh, maximizing, variant, depth, moves, i + 1);
        let k = choose|k: int|
            i + 1 <= k < moves.len() && #[trigger] child_value(b, sh, gh, maximizing, variant, depth, moves[k])
                == best_child_value(b, sh, gh, maximizing, variant, depth, moves, i + 1);
        assert(i <= k < moves.len());
        let v = child_value(b, sh, gh, maximizing, variant, depth, moves[i]);
        let best = best_child_value(b, sh, gh, maximizing, variant, depth, moves, i);
        if best == v {
            assert(child_value(b, sh, gh, maximizing, variant, depth, moves[i]) == best);
        } else {
            assert(child_value(b, sh, gh, maximizing, variant, depth, moves[k]) == best);
        }
    } else {
        assert(child_value(b, sh, gh, maximizing, variant, depth, moves[i]) == best_child_value(b, sh, gh, maximizing, variant, depth, moves, i));
    }
}

proof fn lemma_minimax_value_bound(
    b: Seq<i8>,
    sh: Seq<u8>,
    gh: Seq<u8>,
    maximizing: bool,
    variant: GameVariant,
    depth: u8,
)
    requires
        sh.len() == 8,
        gh.len() == 8,
    ensures
        -3_000_000 <= minimax_value(b, sh, gh, maximizing, variant, depth) <= 3_000_000,
    decreases depth,
{
    if depth == 0 {
        crate::eval::lemma_evaluation_bound(b, sh, gh, variant);
    } else {
        let legal = legal_moves(b, player(maximizing), sh, gh, variant);
        if legal.len() > 0 {
            lemma_best_child_value(b, sh, gh, maximizing, variant, depth, legal, 0);
            let k = choose|k: int|
                0 <= k < legal.len() && #[trigger] child_value(b, sh, gh, maximizing, variant, depth, legal[k])
                    == best_child_value(b, sh, gh, maximizing, variant, depth, legal, 0);
            let a = position_after(b, legal[k], sh, gh, player(maximizing), variant);
            assert(a.1.len() == 8 && a.2.len() == 8);
            lemma_minimax_value_bound(a.0, a.1, a.2, !maximizing, variant, (depth - 1) as u8);
        }
    }
}

/// The order a node searches its moves in lists each of them, when no move
/// is left out.
proof fn lemma_order_covers(moves: Seq<ShogiMove>, b: Seq<i8>, tb: Option<usize>, depth: u8)
    requires
        moves.len() <= usize::MAX,
        depth <= 2 ==> forall|i: int| 0 <= i < moves.len() ==> #[trigger] moves[i].move_type != MOVE_TYPE_DROP,
    ensures
        forall|k: int| 0 <= k < search_order(moves, b, tb, depth).len() ==> #[trigger] search_order(
            moves,
            b,
            tb,
            depth,
        )[k] < moves.len(),
        forall|i: int| 0 <= i < moves.len() ==> #[trigger] lists(search_order(moves, b, tb, depth), i),
{
    let n = moves.len();
    let keys = ordering_keys(moves, b, tb);
    let sorted = crate::search::sort_desc(keys);
    lemma_sort_desc(keys);
    assert forall|k: int| 0 <= k < sorted.len() implies #[trigger] sorted[k].1 < n
        && moves[sorted[k].1 as int].move_type == moves[sorted[k].1 as int].move_type by {
        assert(sorted.to_multiset().count(sorted[k]) > 0);
        assert(keys.contains(sorted[k]));
        let q = choose|q: int| 0 <= q < keys.len() && keys[q] == sorted[k];
        assert(keys[q].1 == q as usize);
    }
    let order = search_order(moves, b, tb, depth);
    if depth <= 2 {
        assert forall|k: int| 0 <= k < sorted.len() implies #[trigger] moves[sorted[k].1 as int].move_type
            != MOVE_TYPE_DROP by {
            assert(sorted[k].1 < n);
        }
        lemma_drops_capped_all(sorted, moves, 0, 0);
    }
    assert(order =~= sorted.map_values(|p: (i32, usize)| p.1));
    assert forall|i: int| 0 <= i < n implies #[trigger] lists(order, i) by {
        assert(keys[i].1 == i as usize);
        assert(keys.to_multiset().count(keys[i]) > 0);
        assert(sorted.contains(keys[i]));
        let q = choose|q: int| 0 <= q < sorted.len() && sorted[q] == keys[i];
        assert(order[q] == i);
    }
}

/// Alpha-beta at one node with no table probes, window `(alpha, beta)`: a
/// result inside the window is the minimax value, one at or below alpha
/// bounds it from above, one at or above beta bounds it from below.
proof fn lemma_search_value(
    slots: Seq<Option<TTEntry>>,
    mask: usize,
    gen: u16,
    b: Seq<i8>,
    sh: Seq<u8>,
    gh: Seq<u8>,
    depth: u8,
    alpha: i32,
    beta: i32,
    maximizing: bool,
    variant: GameVariant,
)
    requires
        sh.len() == 8,
        gh.len() == 8,
        alpha < beta,
        nothing_pruned(b, sh, gh, maximizing, variant, depth),
    ensures
        ({
            let r = search(slots, mask, gen, b, sh, gh, depth, alpha, beta, maximizing, 0, variant).0 as int;
            let v = minimax_value(b, sh, gh, maximizing, variant, depth);
            &&& alpha < r < beta ==> r == v
            &&& r <= alpha ==> v <= r
            &&& r >= beta ==> v >= r
        }),
    decreases depth, 1int, 0int,
{
    reveal(nothing_pruned);
    if depth == 0 {
        crate::eval::lemma_evaluation_bound(b, sh, gh, variant);
    } else {
        let owner = player(maximizing);
        let legal = legal_moves(b, owner, sh, gh, variant);
        if legal.len() > 0 {
            let hash = crate::tt::position_hash(b, sh, gh, maximizing);
            let tb = recorded_best(slots, mask, hash);
            let order = search_order(legal, b, tb, depth);
            assert(depth <= 2 ==> forall|i: int| 0 <= i < legal.len() ==> #[trigger] legal[i].move_type != MOVE_TYPE_DROP);
            lemma_order_covers(legal, b, tb, depth);
            assert(lists(order, 0));
            let init: i32 = if maximizing { i32::MIN } else { i32::MAX };
            let fl: u8 = if maximizing { crate::tt::TT_ALPHA } else { crate::tt::TT_BETA };
            lemma_scan_value(slots, mask, gen, b, sh, gh, depth, maximizing, variant, legal, order, 0, alpha, beta, init, order[0], fl);
            lemma_best_child_value(b, sh, gh, maximizing, variant, depth, legal, 0);
            let r = scan(slots, mask, gen, b, sh, gh, depth, 0, maximizing, variant, legal, order, 0, alpha, beta, init, order[0], fl);
            let v = best_child_value(b, sh, gh, maximizing, variant, depth, legal, 0);
            assert(search(slots, mask, gen, b, sh, gh, depth, alpha, beta, maximizing, 0, variant).0 == r.0);
            let kv = choose|k: int|
                0 <= k < legal.len() && #[trigger] child_value(b, sh, gh, maximizing, variant, depth, legal[k]) == v;
            assert(lists(order, kv));
            let qv = choose|q: int| 0 <= q < order.len() && #[trigger] order[q] == kv;
            if maximizing {
                if r.0 < beta {
                    assert forall|i: int| 0 <= i < legal.len() implies #[trigger] child_value(b, sh, gh, maximizing, variant, depth, legal[i]) <= r.0 by {
                        assert(lists(order, i));
                        let q = choose|q: int| 0 <= q < order.len() && #[trigger] order[q] == i;
                    }
                }
            } else {
                if r.0 > alpha {
                    assert forall|i: int| 0 <= i < legal.len() implies #[trigger] child_value(b, sh, gh, maximizing, variant, depth, legal[i]) >= r.0 by {
                        assert(lists(order, i));
                        let q = choose|q: int| 0 <= q < order.len() && #[trigger] order[q] == i;
                    }
                }
            }
        }
    }
}

/// The scan of a node's moves from position `j` of `order` on, with the
/// window, best score, move index and flag reached so far, against the
/// minimax values of the moves scanned.
proof fn lemma_scan_value(
    slots: Seq<Option<TTEntry>>,
    mask: usize,
    gen: u16,
    b: Seq<i8>,
    sh: Seq<u8>,
    gh: Seq<u8>,
    depth: u8,
    maximizing: bool,
    variant: GameVariant,
    moves: Seq<ShogiMove>,
    order: Seq<usize>,
    j: int,
    alpha: i32,
    beta: i32,
    best: i32,
    bi: usize,
    flag: u8,
)
    requires
        sh.len() == 8,
        gh.len() == 8,
        depth > 0,
        0 <= j <= order.len(),
        forall|k: int| 0 <= k < order.len() ==> #[trigger] order[k] < moves.len(),
        alpha < beta,
        maximizing ==> best <= alpha,
        !maximizing ==> best >= beta,
        forall|i: int| 0 <= i < moves.len() ==> {
            let a = position_after(b, #[trigger] moves[i], sh, gh, player(maximizing), variant);
            nothing_pruned(a.0, a.1, a.2, !maximizing, variant, (depth - 1) as u8)
        },
    ensures
        ({
            let r = scan(slots, mask, gen, b, sh, gh, depth, 0, maximizing, variant, moves, order, j, alpha, beta, best, bi, flag).0 as int;
            if maximizing {
                &&& r >= best
                &&& r >= beta ==> exists|k: int| j <= k < order.len() && #[trigger] child_value(b, sh, gh, maximizing, variant, depth, moves[order[k] as int]) >= r
                &&& r < beta ==> forall|k: int| j <= k < order.len() ==> #[trigger] child_value(b, sh, gh, maximizing, variant, depth, moves[order[k] as int]) <= r
                &&& alpha < r < beta && r > best ==> exists|k: int| j <= k < order.len() && #[trigger] child_value(b, sh, gh, maximizing, variant, depth, moves[order[k] as int]) == r
            } else {
                &&& r <= best
                &&& r <= alpha ==> exists|k: int| j <= k < order.len() && #[trigger] child_value(b, sh, gh, maximizing, variant, depth, moves[order[k] as int]) <= r
                &&& r > alpha ==> forall|k: int| j <= k < order.len() ==> #[trigger] child_value(b, sh, gh, maximizing, variant, depth, moves[order[k] as int]) >= r
                &&& alpha < r < beta && r < best ==> exists|k: int| j <= k < order.len() && #[trigger] child_value(b, sh, gh, maximizing, variant, depth, moves[order[k] as int]) == r
            }
        }),
    decreases depth, 0int, order.len() - j,
{
    if j < order.len() {
        let idx = order[j];
        let m = moves[idx as int];
        let a = position_after(b, m, sh, gh, player(maximizing), variant);
        assert(a.1.len() == 8 && a.2.len() == 8);
        lemma_search_value(slots, mask, gen, a.0, a.1, a.2, (depth - 1) as u8, alpha, beta, !maximizing, variant);
        let child = search(slots, mask, gen, a.0, a.1, a.2, (depth - 1) as u8, alpha, beta, !maximizing, 0, variant);
        let sc = child.0;
        let cv = child_value(b, sh, gh, maximizing, variant, depth, m);
        assert(cv == minimax_value(a.0, a.1, a.2, !maximizing, variant, (depth - 1) as u8));
        let r = scan(slots, mask, gen, b, sh, gh, depth, 0, maximizing, variant, moves, order, j, alpha, beta, best, bi, flag);
        if maximizing {
            let b2 = if sc > best { sc } else { best };
            let i2 = if sc > best { idx } else { bi };
            let a2 = if sc > alpha { sc } else { alpha };
            let f2 = if sc > alpha { crate::tt::TT_EXACT } else { flag };
            if beta <= a2 {
                assert(r.0 == sc);
                assert(child_value(b, sh, gh, maximizing, variant, depth, moves[order[j] as int]) >= r.0);
            } else {
                lemma_scan_value(child.2, mask, gen, b, sh, gh, depth, maximizing, variant, moves, order, j + 1, a2, beta, b2, i2, f2);
                let r2 = scan(child.2, mask, gen, b, sh, gh, depth, 0, maximizing, variant, moves, order, j + 1, a2, beta, b2, i2, f2);
                assert(r == r2);
                assert(sc < beta);
                assert(r2.0 >= b2);
                assert(sc <= b2);
                assert(cv <= r.0 as int) by {
                    if alpha < sc {
                        assert(cv == sc as int);
                    } else {
                        assert(cv <= sc as int);
                    }
                }
                if r.0 < beta {
                    assert forall|k: int| j <= k < order.len() implies #[trigger] child_value(b, sh, gh, maximizing, variant, depth, moves[order[k] as int]) <= r.0 by {
                        if k == j {
                        } else {
                            assert(j + 1 <= k < order.len());
                        }
                    }
                }
                if r.0 >= beta {
                    let k = choose|k: int| j + 1 <= k < order.len() && #[trigger] child_value(b, sh, gh, maximizing, variant, depth, moves[order[k] as int]) >= r.0;
                    assert(j <= k < order.len());
                }
                if r.0 < beta && alpha < r.0 && r.0 > best {
                    if r.0 == b2 {
                        assert(sc == r.0);
                        assert(child_value(b, sh, gh, maximizing, variant, depth, moves[order[j] as int]) == r.0);
                    } else {
                        assert(a2 < r.0);
                        let k = choose|k: int| j + 1 <= k < order.len() && #[trigger] child_value(b, sh, gh, maximizing, variant, depth, moves[order[k] as int]) == r.0;
                        assert(j <= k < order.len());
                    }
                }
            }
        } else {
            let b2 = if sc < best { sc } else { best };
            let i2 = if sc < best { idx } else { bi };
            let be2 = if sc < beta { sc } else { beta };
            let f2 = if sc < beta { crate::tt::TT_EXACT } else { flag };
            if be2 <= alpha {
                assert(r.0 == sc);
                assert(child_value(b, sh, gh, maximizing, variant, depth, moves[order[j] as int]) <= r.0);
            } else {
                lemma_scan_value(child.2, mask, gen, b, sh, gh, depth, maximizing, variant, moves, order, j + 1, alpha, be2, b2, i2, f2);
                let r2 = scan(child.2, mask, gen, b, sh, gh, depth, 0, maximizing, variant, moves, order, j + 1, alpha, be2, b2, i2, f2);
                assert(r == r2);
                assert(sc > alpha);
                assert(r2.0 <= b2);
                assert(sc >= b2);
                assert(cv >= r.0 as int) by {
                    if sc < beta {
                        assert(cv == sc as int);
                    } else {
                        assert(cv >= sc as int);
                    }
                }
                if r.0 > alpha {
                    assert forall|k: int| j <= k < order.len() implies #[trigger] child_value(b, sh, gh, maximizing, variant, depth, moves[order[k] as int]) >= r.0 by {
                        if k == j {
                        } else {
                            assert(j + 1 <= k < order.len());
                        }
                    }
                }
                if r.0 <= alpha {
                    let k = choose|k: int| j + 1 <= k < order.len() && #[trigger] child_value(b, sh, gh, maximizing, variant, depth, moves[order[k] as int]) <= r.0;
                    assert(j <= k < order.len());
                }
                if r.0 > alpha && r.0 < beta && r.0 < best {
                    if r.0 == b2 {
                        assert(sc == r.0);
                        assert(child_value(b, sh, gh, maximizing, variant, depth, moves[order[j] as int]) == r.0);
                    } else {
                        assert(be2 > r.0);
                        let k = choose|k: int| j + 1 <= k < order.len() && #[trigger] child_value(b, sh, gh, maximizing, variant, depth, moves[order[k] as int]) == r.0;
                        assert(j <= k < order.len());
                    }
                }
            }
        }
    }
}

/// Alpha-beta returns the plain minimax value: searched with the widest
/// window and without table probes (the table then only orders the moves,
/// whatever it holds), a position where no move is left out gets exactly its
/// minimax value over the legal moves.
pub proof fn lemma_search_is_minimax(
    slots: Seq<Option<TTEntry>>,
    mask: usize,
    gen: u16,
    b: Seq<i8>,
    sh: Seq<u8>,
    gh: Seq<u8>,
    maximizing: bool,
    variant: GameVariant,
    depth: u8,
)
    requires
        sh.len() == 8,
        gh.len() == 8,
        nothing_pruned(b, sh, gh, maximizing, variant, depth),
    ensures
        search(slots, mask, gen, b, sh, gh, depth, (i32::MIN + 1) as i32, (i32::MAX - 1) as i32, maximizing, 0, variant).0
            == minimax_value(b, sh, gh, maximizing, variant, depth),
{
    lemma_search_value(slots, mask, gen, b, sh, gh, depth, (i32::MIN + 1) as i32, (i32::MAX - 1) as i32, maximizing, variant);
    lemma_minimax_value_bound(b, sh, gh, maximizing, variant, depth);
}

} // verus!
