use vstd::prelude::*;

use crate::apply::{apply_move, board_after, move_fits, mover_hand_after};
use crate::check::{in_check, is_in_check};
use crate::eval::{evaluate, evaluation};
use crate::movegen::{at, get_all_legal_moves, legal_moves};
use crate::mcts::{improves, position_after, value_after};
use crate::tt::{
    hash_board, position_hash, probe_answer, store_replaces, TTEntry, TranspositionTable, TT_ALPHA,
    TT_BETA, TT_EXACT,
};
use crate::types::{
    abs_piece, all_shape_ok, board_get, kind_of, move_shape_ok, piece_value, sq_index, value_of,
    Board, GameVariant, Hand, ShogiMove, EMPTY, GOTE, MOVE_TYPE_DROP, MOVE_TYPE_MOVE,
    MOVE_TYPE_PROMOTE_NIN, SENTE,
};

verus! {

broadcast use vstd::seq_lib::group_to_multiset_ensures;

pub const MAX_DEPTH: u8 = 6;

/// Search state kept between searches: the transposition table, a node
/// counter, and the time budget in milliseconds (0 for none) counted from
/// `start_time`, as read from the clock handed to the search.
pub struct SearchState {
    pub tt: TranspositionTable,
    pub nodes: u64,
    pub time_limit: u32,
    pub start_time: u64,
    pub aborted: bool,
}

impl SearchState {
    pub fn new(tt: TranspositionTable) -> (s: Self)
        ensures
            s.tt == tt,
            s.nodes == 0,
            s.time_limit == 0,
            s.start_time == 0,
            !s.aborted,
    {
        SearchState { tt, nodes: 0, time_limit: 0, start_time: 0, aborted: false }
    }
}

/// Ordering key of the `idx`-th move: the transposition table's best move
/// first (100000), then the other moves by `move_priority`, held below
/// 100000.
pub open spec fn ordering_score(m: ShogiMove, b: Seq<i8>, tt_best: Option<usize>, idx: usize) -> int {
    if tt_best == Some(idx) {
        100_000
    } else if move_priority(m, b) > 99_999 {
        99_999
    } else {
        move_priority(m, b)
    }
}

/// Priority of a move other than the table's: captures by most valuable
/// victim and least valuable attacker, promotions, board moves, and NIN
/// promotions.
pub open spec fn move_priority(m: ShogiMove, b: Seq<i8>) -> int {
    let target = at(b, m.tr as int, m.tc as int);
    let capture = if m.move_type == MOVE_TYPE_MOVE && target != EMPTY {
        let attacker = if m.fr != 255 {
            value_of(kind_of(at(b, m.fr as int, m.fc as int)))
        } else {
            100
        };
        10_000 + value_of(kind_of(target)) * 10 - attacker
    } else {
        0
    };
    capture + (if m.promote {
        5_000int
    } else {
        0
    }) + (if m.move_type == MOVE_TYPE_MOVE {
        100int
    } else {
        0
    }) + (if m.move_type == MOVE_TYPE_PROMOTE_NIN {
        500int
    } else {
        0
    })
}

fn score_move_for_ordering(m: &ShogiMove, board: &Board, tt_best_idx: Option<usize>, move_idx: usize) -> (s:
    i32)
    requires
        move_shape_ok(*m),
    ensures
        s == ordering_score(*m, board@, tt_best_idx, move_idx),
{
    // The transposition table's best move comes first.
    if let Some(best) = tt_best_idx {
        if move_idx == best {
            return 100_000;
        }
    }
    let mut s: i32 = 0;
    // Captures: most valuable victim, least valuable attacker.
    if m.move_type == MOVE_TYPE_MOVE {
        let target = board_get(board, m.tr as usize, m.tc as usize);
        if target != EMPTY {
            let victim = piece_value(abs_piece(target));
            let attacker = if m.fr != 255 {
                piece_value(abs_piece(board_get(board, m.fr as usize, m.fc as usize)))
            } else {
                100
            };
            s += 10_000 + victim * 10 - attacker;
        }
    }
    if m.promote {
        s += 5_000;
    }
    if m.move_type == MOVE_TYPE_MOVE {
        s += 100;
    }
    if m.move_type == MOVE_TYPE_PROMOTE_NIN {
        s += 500;
    }
    // Only the table's best move reaches 100000.
    if s > 99_999 {
        s = 99_999;
    }
    s
}

pub open spec fn sorted_desc(s: Seq<(i32, usize)>) -> bool {
    forall|i: int, j: int| 0 <= i < j < s.len() ==> s[i].0 >= s[j].0
}

/// Position at which `key` is inserted into a sequence sorted by decreasing
/// key: after every element whose key is not smaller.
pub open spec fn desc_pos(s: Seq<(i32, usize)>, key: i32) -> int
    decreases s.len(),
{
    if s.len() == 0 {
        0
    } else if s[0].0 < key {
        0
    } else {
        1 + desc_pos(s.drop_first(), key)
    }
}

/// Stable sort by decreasing key, by insertion.
pub open spec fn sort_desc(v: Seq<(i32, usize)>) -> Seq<(i32, usize)>
    decreases v.len(),
{
    if v.len() == 0 {
        seq![]
    } else {
        let s = sort_desc(v.drop_last());
        s.insert(desc_pos(s, v.last().0), v.last())
    }
}

proof fn lemma_desc_pos(s: Seq<(i32, usize)>, key: i32, p: int)
    requires
        0 <= p <= s.len(),
        forall|q: int| 0 <= q < p ==> s[q].0 >= key,
        p == s.len() || s[p].0 < key,
    ensures
        desc_pos(s, key) == p,
    decreases s.len(),
{
    if s.len() > 0 && p > 0 {
        lemma_desc_pos(s.drop_first(), key, p - 1);
    }
}

/// Stable sort by decreasing key.
pub(crate) fn sort_by_score_desc(v: &Vec<(i32, usize)>) -> (out: Vec<(i32, usize)>)
    ensures
        out@ == sort_desc(v@),
        out@.to_multiset() == v@.to_multiset(),
        out@.len() == v@.len(),
        sorted_desc(out@),
        forall|k: int| 0 <= k < out@.len() ==> v@.contains(#[trigger] out@[k]),
{
    let mut out: Vec<(i32, usize)> = Vec::new();
    let mut i: usize = 0;
    while i < v.len()
        invariant
            0 <= i <= v@.len(),
            out@.to_multiset() == v@.take(i as int).to_multiset(),
            out@ == sort_desc(v@.take(i as int)),
            out@.len() == i,
            sorted_desc(out@),
        decreases v@.len() - i,
    {
        let x = v[i];
        let mut p: usize = 0;
        while p < out.len() && out[p].0 >= x.0
            invariant
                0 <= p <= out@.len(),
                forall|q: int| 0 <= q < p ==> out@[q].0 >= x.0,
            decreases out@.len() - p,
        {
            p += 1;
        }
        let ghost old_out = out@;
        proof {
            lemma_desc_pos(old_out, x.0, p as int);
            assert(v@.take(i as int + 1).drop_last() =~= v@.take(i as int));
        }
        out.insert(p, x);
        proof {
            vstd::seq_lib::to_multiset_insert(old_out, p as int, x);
            assert(v@.take(i as int + 1) =~= v@.take(i as int).push(x));
            assert forall|a: int, b: int| 0 <= a < b < out@.len() implies out@[a].0 >= out@[b].0 by {
                if b < p {
                } else if b == p {
                } else if a < p {
                    assert(old_out[a].0 >= x.0);
                    assert(out@[b] == old_out[b - 1]);
                    if p < old_out.len() {
                        assert(old_out[p as int].0 < x.0);
                    }
                } else if a == p {
                    assert(old_out[p as int].0 < x.0);
                    assert(old_out[p as int].0 >= old_out[b - 1].0);
                } else {
                }
            }
        }
        i += 1;
    }
    proof {
        assert(v@.take(v@.len() as int) =~= v@);
        assert forall|k: int| 0 <= k < out@.len() implies v@.contains(#[trigger] out@[k]) by {
            assert(out@.to_multiset().count(out@[k]) > 0);
        }
    }
    out
}

proof fn lemma_desc_pos_spec(s: Seq<(i32, usize)>, key: i32)
    ensures
        0 <= desc_pos(s, key) <= s.len(),
        forall|q: int| 0 <= q < desc_pos(s, key) ==> s[q].0 >= key,
        desc_pos(s, key) < s.len() ==> s[desc_pos(s, key)].0 < key,
    decreases s.len(),
{
    if s.len() > 0 && s[0].0 >= key {
        lemma_desc_pos_spec(s.drop_first(), key);
        assert forall|q: int| 0 <= q < desc_pos(s, key) implies s[q].0 >= key by {
            if q > 0 {
                assert(s[q] == s.drop_first()[q - 1]);
            }
        }
    }
}

/// `sort_desc` sorts by decreasing key and keeps every element.
pub(crate) proof fn lemma_sort_desc(v: Seq<(i32, usize)>)
    ensures
        sort_desc(v).len() == v.len(),
        sort_desc(v).to_multiset() == v.to_multiset(),
        sorted_desc(sort_desc(v)),
    decreases v.len(),
{
    if v.len() > 0 {
        let s = sort_desc(v.drop_last());
        let x = v.last();
        lemma_sort_desc(v.drop_last());
        lemma_desc_pos_spec(s, x.0);
        let p = desc_pos(s, x.0);
        let out = s.insert(p, x);
        vstd::seq_lib::to_multiset_insert(s, p, x);
        assert(v =~= v.drop_last().push(x));
        assert forall|a: int, b: int| 0 <= a < b < out.len() implies out[a].0 >= out[b].0 by {
            if b < p {
            } else if b == p {
            } else if a < p {
                assert(out[b] == s[b - 1]);
                if p < s.len() {
                    assert(s[p].0 < x.0);
                }
            } else if a == p {
                assert(s[p].0 >= s[b - 1].0);
            } else {
            }
        }
    }
}

/// The table's best move is searched first: whatever the depth, the search
/// order starts with the move the table records for the position.
pub proof fn lemma_table_move_first(moves: Seq<ShogiMove>, b: Seq<i8>, best: usize, depth: u8)
    requires
        best < moves.len(),
        moves.len() <= usize::MAX,
    ensures
        search_order(moves, b, Some(best), depth).len() > 0,
        search_order(moves, b, Some(best), depth)[0] == best,
{
    let keys = ordering_keys(moves, b, Some(best));
    let sorted = sort_desc(keys);
    lemma_sort_desc(keys);
    assert forall|j: int| 0 <= j < keys.len() implies #[trigger] keys[j].1 == j as usize && (j != best
        ==> keys[j].0 < 100_000) && (j == best ==> keys[j].0 == 100_000) by {
        let m = moves[j];
        let v1 = value_of(kind_of(at(b, m.tr as int, m.tc as int)));
        let v2 = value_of(kind_of(at(b, m.fr as int, m.fc as int)));
        assert(0 <= v1 <= 10000 && 0 <= v2 <= 10000);
        assert(0 <= move_priority(m, b));
        let sc = ordering_score(m, b, Some(best), j as usize);
        assert(0 <= sc <= 100_000);
        assert(keys[j] == (sc as i32, j as usize));
        assert(sc as i32 == sc);
    }
    assert(keys.to_multiset().count(keys[best as int]) > 0);
    assert(sorted.to_multiset().count(keys[best as int]) > 0);
    assert(sorted.contains(keys[best as int]));
    let q = choose|q: int| 0 <= q < sorted.len() && sorted[q] == keys[best as int];
    assert(sorted.contains(sorted[0])) by {
        assert(sorted.len() > 0);
    }
    assert(sorted.to_multiset().count(sorted[0]) > 0);
    assert(keys.contains(sorted[0]));
    let j = choose|j: int| 0 <= j < keys.len() && keys[j] == sorted[0];
    if q > 0 {
        assert(sorted[0].0 >= sorted[q].0);
    }
    assert(j == best);
}

/// `drops_capped` keeps every index when none of the moves is a drop.
pub(crate) proof fn lemma_drops_capped_all(keys: Seq<(i32, usize)>, moves: Seq<ShogiMove>, j: int, d: int)
    requires
        0 <= j <= keys.len(),
        forall|k: int| 0 <= k < keys.len() ==> #[trigger] moves[keys[k].1 as int].move_type != MOVE_TYPE_DROP,
    ensures
        drops_capped(keys, moves, j, d) == keys.subrange(j, keys.len() as int).map_values(
            |p: (i32, usize)| p.1,
        ),
    decreases keys.len() - j,
{
    if j < keys.len() {
        lemma_drops_capped_all(keys, moves, j + 1, d);
        assert(moves[keys[j].1 as int].move_type != MOVE_TYPE_DROP);
        assert(drops_capped(keys, moves, j, d) =~= keys.subrange(j, keys.len() as int).map_values(
            |p: (i32, usize)| p.1,
        ));
    } else {
        assert(drops_capped(keys, moves, j, d) =~= keys.subrange(j, keys.len() as int).map_values(
            |p: (i32, usize)| p.1,
        ));
    }
}

/// `order` lists the index `i`.
pub open spec fn lists(order: Seq<usize>, i: int) -> bool {
    exists|q: int| 0 <= q < order.len() && #[trigger] order[q] == i
}

/// Evaluation for the mover's side after `m`.
pub open spec fn ply_value(
    b: Seq<i8>,
    m: ShogiMove,
    sh: Seq<u8>,
    gh: Seq<u8>,
    maximizing: bool,
    variant: GameVariant,
) -> int {
    value_after(b, m, sh, gh, player(maximizing), variant)
}

proof fn lemma_ply_value_bound(
    b: Seq<i8>,
    m: ShogiMove,
    sh: Seq<u8>,
    gh: Seq<u8>,
    maximizing: bool,
    variant: GameVariant,
)
    requires
        sh.len() == 8,
        gh.len() == 8,
    ensures
        -3_000_000 <= ply_value(b, m, sh, gh, maximizing, variant) <= 3_000_000,
{
    let a = position_after(b, m, sh, gh, player(maximizing), variant);
    assert(a.1.len() == 8 && a.2.len() == 8);
    crate::eval::lemma_evaluation_bound(a.0, a.1, a.2, variant);
}

/// At one ply, the scan of a node's moves keeps the first best evaluation.
proof fn lemma_scan_one_ply(
    slots: Seq<Option<TTEntry>>,
    mask: usize,
    gen: u16,
    b: Seq<i8>,
    sh: Seq<u8>,
    gh: Seq<u8>,
    eod: u8,
    maximizing: bool,
    variant: GameVariant,
    moves: Seq<ShogiMove>,
    order: Seq<usize>,
    j: int,
    alpha: i32,
    beta: i32,
    best: i32,
    bi: usize,
    flag: u8,
)
    requires
        sh.len() == 8,
        gh.len() == 8,
        0 <= j <= order.len(),
        maximizing ==> beta == i32::MAX - 1 && alpha <= 3_000_000,
        !maximizing ==> alpha == i32::MIN + 1 && beta >= -3_000_000,
    ensures
        ({
            let r = scan(slots, mask, gen, b, sh, gh, 1, eod, maximizing, variant, moves, order, j, alpha, beta, best, bi, flag);
            &&& r.3 == slots
            &&& forall|k: int|
                j <= k < order.len() ==> !improves(
                    #[trigger] ply_value(b, moves[order[k] as int], sh, gh, maximizing, variant),
                    r.0 as int,
                    maximizing,
                )
            &&& (r.0 == best && r.1 == bi) || (improves(r.0 as int, best as int, maximizing) && exists|k: int|
                j <= k < order.len() && r.1 == order[k] && r.0 == ply_value(
                    b,
                    moves[order[k] as int],
                    sh,
                    gh,
                    maximizing,
                    variant,
                ))
        }),
    decreases order.len() - j,
{
    if j < order.len() {
        let idx = order[j];
        let m = moves[idx as int];
        let a = position_after(b, m, sh, gh, player(maximizing), variant);
        let v = ply_value(b, m, sh, gh, maximizing, variant);
        lemma_ply_value_bound(b, m, sh, gh, maximizing, variant);
        let child = search(slots, mask, gen, a.0, a.1, a.2, 0, alpha, beta, !maximizing, eod, variant);
        assert(child == (v as i32, None::<ShogiMove>, slots));
        let score = v as i32;
        assert(score == v);
        let (b2, i2) = if improves(v, best as int, maximizing) {
            (score, idx)
        } else {
            (best, bi)
        };
        if maximizing {
            let (a2, f2) = if score > alpha {
                (score, TT_EXACT)
            } else {
                (alpha, flag)
            };
            lemma_scan_one_ply(slots, mask, gen, b, sh, gh, eod, maximizing, variant, moves, order, j + 1, a2, beta, b2, i2, f2);
        } else {
            let (be2, f2) = if score < beta {
                (score, TT_EXACT)
            } else {
                (beta, flag)
            };
            lemma_scan_one_ply(slots, mask, gen, b, sh, gh, eod, maximizing, variant, moves, order, j + 1, alpha, be2, b2, i2, f2);
        }
        let r = scan(slots, mask, gen, b, sh, gh, 1, eod, maximizing, variant, moves, order, j, alpha, beta, best, bi, flag);
        let r2 = scan(slots, mask, gen, b, sh, gh, 1, eod, maximizing, variant, moves, order, j + 1,
            if maximizing { if score > alpha { score } else { alpha } } else { alpha },
            if maximizing { beta } else { if score < beta { score } else { beta } },
            b2, i2,
            if maximizing { if score > alpha { TT_EXACT } else { flag } } else { if score < beta { TT_EXACT } else { flag } });
        assert(r == r2);
        if r2.0 == b2 && r2.1 == i2 {
            if improves(v, best as int, maximizing) {
                assert(r.1 == order[j] && r.0 == ply_value(b, moves[order[j] as int], sh, gh, maximizing, variant));
            }
        } else {
            let k = choose|k: int|
                j + 1 <= k < order.len() && r2.1 == order[k] && r2.0 == ply_value(
                    b,
                    moves[order[k] as int],
                    sh,
                    gh,
                    maximizing,
                    variant,
                );
            assert(j <= k < order.len());
        }
    }
}

/// A one-ply search is the plain best evaluation: searching to depth 1 with
/// the widest window and no table probe at the root, where no legal move is
/// a drop, returns a legal move after which the position evaluates best for
/// the mover (no legal move does better), together with that evaluation.
pub proof fn lemma_one_ply_search_is_best_evaluation(
    slots: Seq<Option<TTEntry>>,
    mask: usize,
    gen: u16,
    b: Seq<i8>,
    sh: Seq<u8>,
    gh: Seq<u8>,
    maximizing: bool,
    eod: u8,
    variant: GameVariant,
)
    requires
        sh.len() == 8,
        gh.len() == 8,
        eod <= 1,
        legal_moves(b, player(maximizing), sh, gh, variant).len() > 0,
        legal_moves(b, player(maximizing), sh, gh, variant).len() <= usize::MAX,
        forall|i: int|
            0 <= i < legal_moves(b, player(maximizing), sh, gh, variant).len() ==> #[trigger] legal_moves(
                b,
                player(maximizing),
                sh,
                gh,
                variant,
            )[i].move_type != MOVE_TYPE_DROP,
    ensures
        ({
            let legal = legal_moves(b, player(maximizing), sh, gh, variant);
            let r = search(slots, mask, gen, b, sh, gh, 1, (i32::MIN + 1) as i32, (i32::MAX - 1) as i32, maximizing, eod, variant);
            &&& r.1 matches Some(m) && legal.contains(m) && r.0 == ply_value(b, m, sh, gh, maximizing, variant)
            &&& forall|i: int|
                0 <= i < legal.len() ==> !improves(
                    #[trigger] ply_value(b, legal[i], sh, gh, maximizing, variant),
                    r.0 as int,
                    maximizing,
                )
        }),
{
    let legal = legal_moves(b, player(maximizing), sh, gh, variant);
    let n = legal.len();
    let hash = position_hash(b, sh, gh, maximizing);
    let tb = recorded_best(slots, mask, hash);
    let keys = ordering_keys(legal, b, tb);
    let sorted = sort_desc(keys);
    lemma_sort_desc(keys);
    assert forall|k: int| 0 <= k < sorted.len() implies #[trigger] sorted[k].1 < n
        && legal[sorted[k].1 as int].move_type != MOVE_TYPE_DROP by {
        assert(sorted.to_multiset().count(sorted[k]) > 0);
        assert(keys.contains(sorted[k]));
        let q = choose|q: int| 0 <= q < keys.len() && keys[q] == sorted[k];
        assert(keys[q].1 == q as usize);
    }
    lemma_drops_capped_all(sorted, legal, 0, 0);
    let order = search_order(legal, b, tb, 1);
    assert(order =~= sorted.map_values(|p: (i32, usize)| p.1));
    assert forall|i: int| 0 <= i < n implies #[trigger] lists(order, i) by {
        assert(keys[i].1 == i as usize);
        assert(keys.to_multiset().count(keys[i]) > 0);
        assert(sorted.contains(keys[i]));
        let q = choose|q: int| 0 <= q < sorted.len() && sorted[q] == keys[i];
        assert(order[q] == i);
    }
    let init = if maximizing { i32::MIN } else { i32::MAX };
    let fl = if maximizing { TT_ALPHA } else { TT_BETA };
    lemma_scan_one_ply(slots, mask, gen, b, sh, gh, eod, maximizing, variant, legal, order, 0, (i32::MIN + 1) as i32, (i32::MAX - 1) as i32, init, order[0], fl);
    let sr = scan(slots, mask, gen, b, sh, gh, 1, eod, maximizing, variant, legal, order, 0, (i32::MIN + 1) as i32, (i32::MAX - 1) as i32, init, order[0], fl);
    lemma_ply_value_bound(b, legal[order[0] as int], sh, gh, maximizing, variant);
    assert(!improves(ply_value(b, legal[order[0] as int], sh, gh, maximizing, variant), sr.0 as int, maximizing));
    assert(sr.0 != init);
    let k = choose|k: int|
        0 <= k < order.len() && sr.1 == order[k] && sr.0 == ply_value(b, legal[order[k] as int], sh, gh, maximizing, variant);
    assert(legal.contains(legal[sr.1 as int]));
    assert forall|i: int| 0 <= i < n implies !improves(
        #[trigger] ply_value(b, legal[i], sh, gh, maximizing, variant),
        sr.0 as int,
        maximizing,
    ) by {
        assert(lists(order, i));
        let q = choose|q: int| 0 <= q < order.len() && #[trigger] order[q] == i;
        assert(order[q] as int == i);
    }
}

/// Within `depth` plies from this position, with `maximizing` to move, every
/// legal move can be played without a value leaving its range (no hand
/// count passes 255 on a capture).
#[verifier::opaque]
pub open spec fn captures_fit(
    b: Seq<i8>,
    sh: Seq<u8>,
    gh: Seq<u8>,
    maximizing: bool,
    variant: GameVariant,
    depth: nat,
) -> bool
    decreases depth,
{
    depth == 0 || forall|i: int|
        0 <= i < legal_moves(b, player(maximizing), sh, gh, variant).len() ==> {
            let m = #[trigger] legal_moves(b, player(maximizing), sh, gh, variant)[i];
            let a = position_after(b, m, sh, gh, player(maximizing), variant);
            move_fits(b, m, sh, gh, player(maximizing), variant) && captures_fit(
                a.0,
                a.1,
                a.2,
                !maximizing,
                variant,
                (depth - 1) as nat,
            )
        }
}

/// Room for fewer plies is implied by room for more.
pub proof fn lemma_captures_fit_fewer(
    b: Seq<i8>,
    sh: Seq<u8>,
    gh: Seq<u8>,
    maximizing: bool,
    variant: GameVariant,
    depth: nat,
    fewer: nat,
)
    requires
        fewer <= depth,
        captures_fit(b, sh, gh, maximizing, variant, depth),
    ensures
        captures_fit(b, sh, gh, maximizing, variant, fewer),
    decreases fewer,
{
    reveal(captures_fit);
    if fewer > 0 {
        let legal = legal_moves(b, player(maximizing), sh, gh, variant);
        assert forall|i: int| 0 <= i < legal.len() implies {
            let m = #[trigger] legal[i];
            let a = position_after(b, m, sh, gh, player(maximizing), variant);
            move_fits(b, m, sh, gh, player(maximizing), variant) && captures_fit(
                a.0,
                a.1,
                a.2,
                !maximizing,
                variant,
                (fewer - 1) as nat,
            )
        } by {
            let m = legal[i];
            let a = position_after(b, m, sh, gh, player(maximizing), variant);
            lemma_captures_fit_fewer(a.0, a.1, a.2, !maximizing, variant, (depth - 1) as nat, (fewer - 1) as nat);
        }
    }
}

pub open spec fn player(maximizing: bool) -> i8 {
    if maximizing {
        SENTE
    } else {
        GOTE
    }
}

/// Score of a position where the side to move has no legal move while in
/// check, the nearer to the root the larger.
pub open spec fn mate_score(maximizing: bool, depth: u8) -> int {
    if maximizing {
        -99999 + (MAX_DEPTH - depth) * 100
    } else {
        99999 - (MAX_DEPTH - depth) * 100
    }
}

/// The slots of a table with slot mask `mask` in generation `gen` after a
/// store at `hash`.
pub open spec fn slots_after_store(
    slots: Seq<Option<TTEntry>>,
    mask: usize,
    gen: u16,
    hash: u32,
    depth: u8,
    score: i32,
    flag: u8,
    best_move: Option<usize>,
) -> Seq<Option<TTEntry>> {
    let i = ((hash as usize) & mask) as int;
    if store_replaces(slots[i], gen, depth) {
        slots.update(i, Some(TTEntry { hash, depth, score, flag, best_move, gen }))
    } else {
        slots
    }
}

/// The best move the slots record for `hash`, whatever its depth, bounds or
/// generation.
pub open spec fn recorded_best(slots: Seq<Option<TTEntry>>, mask: usize, hash: u32) -> Option<usize> {
    match slots[((hash as usize) & mask) as int] {
        Some(e) => if e.hash == hash {
            e.best_move
        } else {
            None
        },
        None => None,
    }
}

/// (ordering key, index) of each move.
pub open spec fn ordering_keys(moves: Seq<ShogiMove>, b: Seq<i8>, tt_best: Option<usize>) -> Seq<
    (i32, usize),
> {
    Seq::new(moves.len(), |i: int| (ordering_score(moves[i], b, tt_best, i as usize) as i32, i as usize))
}

/// The move indices of `keys` from position `j` on, skipping every drop
/// after the eighth (counting `drops` already kept).
pub open spec fn drops_capped(keys: Seq<(i32, usize)>, moves: Seq<ShogiMove>, j: int, drops: int) -> Seq<
    usize,
>
    decreases keys.len() - j,
{
    if j < 0 || j >= keys.len() {
        seq![]
    } else {
        let idx = keys[j].1;
        if moves[idx as int].move_type == MOVE_TYPE_DROP {
            if drops < 8 {
                seq![idx] + drops_capped(keys, moves, j + 1, drops + 1)
            } else {
                drops_capped(keys, moves, j + 1, drops)
            }
        } else {
            seq![idx] + drops_capped(keys, moves, j + 1, drops)
        }
    }
}

/// The order in which a node at `depth` searches its moves: by decreasing
/// ordering key (earlier moves first among equal keys), and within two plies
/// of the leaves with the drops after the eighth left out.
pub open spec fn search_order(moves: Seq<ShogiMove>, b: Seq<i8>, tt_best: Option<usize>, depth: u8) -> Seq<
    usize,
> {
    let sorted = sort_desc(ordering_keys(moves, b, tt_best));
    if depth <= 2 {
        drops_capped(sorted, moves, 0, 0)
    } else {
        sorted.map_values(|p: (i32, usize)| p.1)
    }
}

/// The result of a search that the clock does not stop, with the table
/// slots it leaves: the score and best move of an alpha-beta search of
/// `depth` plies in the window `(alpha, beta)`, in a table with slot mask
/// `mask` and generation `gen` that holds `slots`.
pub open spec fn search(
    slots: Seq<Option<TTEntry>>,
    mask: usize,
    gen: u16,
    b: Seq<i8>,
    sh: Seq<u8>,
    gh: Seq<u8>,
    depth: u8,
    alpha: i32,
    beta: i32,
    maximizing: bool,
    eod: u8,
    variant: GameVariant,
) -> (i32, Option<ShogiMove>, Seq<Option<TTEntry>>)
    decreases depth, 1int, 0int,
{
    if depth == 0 {
        (evaluation(b, sh, gh, variant) as i32, None, slots)
    } else {
        let hash = position_hash(b, sh, gh, maximizing);
        let hit = if depth < eod {
            probe_answer(slots[((hash as usize) & mask) as int], gen, hash, depth, alpha, beta)
        } else {
            None
        };
        match hit {
            Some(h) => (h.0, None, slots),
            None => {
                let owner = player(maximizing);
                let moves = legal_moves(b, owner, sh, gh, variant);
                if moves.len() == 0 {
                    (
                        if in_check(b, owner) {
                            mate_score(maximizing, depth) as i32
                        } else {
                            0i32
                        },
                        None,
                        slots,
                    )
                } else {
                    let order = search_order(moves, b, recorded_best(slots, mask, hash), depth);
                    let r = scan(
                        slots,
                        mask,
                        gen,
                        b,
                        sh,
                        gh,
                        depth,
                        eod,
                        maximizing,
                        variant,
                        moves,
                        order,
                        0,
                        alpha,
                        beta,
                        if maximizing {
                            i32::MIN
                        } else {
                            i32::MAX
                        },
                        order[0],
                        if maximizing {
                            TT_ALPHA
                        } else {
                            TT_BETA
                        },
                    );
                    (
                        r.0,
                        Some(moves[r.1 as int]),
                        slots_after_store(r.3, mask, gen, hash, depth, r.0, r.2, Some(r.1)),
                    )
                }
            },
        }
    }
}

/// The moves of a node searched from position `j` of `order` on, with the
/// window, best score and move index, and table flag reached so far: the
/// final best score, move index and flag, and the table slots left.
pub open spec fn scan(
    slots: Seq<Option<TTEntry>>,
    mask: usize,
    gen: u16,
    b: Seq<i8>,
    sh: Seq<u8>,
    gh: Seq<u8>,
    depth: u8,
    eod: u8,
    maximizing: bool,
    variant: GameVariant,
    moves: Seq<ShogiMove>,
    order: Seq<usize>,
    j: int,
    alpha: i32,
    beta: i32,
    best: i32,
    best_idx: usize,
    flag: u8,
) -> (i32, usize, u8, Seq<Option<TTEntry>>)
    decreases depth, 0int, order.len() - j,
{
    if j < 0 || j >= order.len() || depth == 0 {
        (best, best_idx, flag, slots)
    } else {
        let idx = order[j];
        let a = position_after(b, moves[idx as int], sh, gh, player(maximizing), variant);
        let child = search(
            slots,
            mask,
            gen,
            a.0,
            a.1,
            a.2,
            (depth - 1) as u8,
            alpha,
            beta,
            !maximizing,
            eod,
            variant,
        );
        let score = child.0;
        let nbest = if maximizing {
            score > best
        } else {
            score < best
        };
        let (b2, i2) = if nbest {
            (score, idx)
        } else {
            (best, best_idx)
        };
        if maximizing {
            let (a2, f2) = if score > alpha {
                (score, TT_EXACT)
            } else {
                (alpha, flag)
            };
            if beta <= a2 {
                (b2, i2, TT_BETA, child.2)
            } else {
                scan(child.2, mask, gen, b, sh, gh, depth, eod, maximizing, variant, moves, order, j + 1, a2, beta, b2, i2, f2)
            }
        } else {
            let (be2, f2) = if score < beta {
                (score, TT_EXACT)
            } else {
                (beta, flag)
            };
            if be2 <= alpha {
                (b2, i2, TT_ALPHA, child.2)
            } else {
                scan(child.2, mask, gen, b, sh, gh, depth, eod, maximizing, variant, moves, order, j + 1, alpha, be2, b2, i2, f2)
            }
        }
    }
}

/// Number of nodes a search that the clock does not stop visits: the node
/// itself and, when it searches its moves, those of the moves searched
/// (see `search`).
pub open spec fn search_nodes(
    slots: Seq<Option<TTEntry>>,
    mask: usize,
    gen: u16,
    b: Seq<i8>,
    sh: Seq<u8>,
    gh: Seq<u8>,
    depth: u8,
    alpha: i32,
    beta: i32,
    maximizing: bool,
    eod: u8,
    variant: GameVariant,
) -> int
    decreases depth, 1int, 0int,
{
    if depth == 0 {
        1
    } else {
        let hash = position_hash(b, sh, gh, maximizing);
        let hit = if depth < eod {
            probe_answer(slots[((hash as usize) & mask) as int], gen, hash, depth, alpha, beta)
        } else {
            None
        };
        let moves = legal_moves(b, player(maximizing), sh, gh, variant);
        if hit is Some || moves.len() == 0 {
            1
        } else {
            let order = search_order(moves, b, recorded_best(slots, mask, hash), depth);
            1 + scan_nodes(
                slots,
                mask,
                gen,
                b,
                sh,
                gh,
                depth,
                eod,
                maximizing,
                variant,
                moves,
                order,
                0,
                alpha,
                beta,
                if maximizing {
                    TT_ALPHA
                } else {
                    TT_BETA
                },
            )
        }
    }
}

/// Number of nodes visited searching the moves of `order` from position `j`
/// on (see `scan`).
pub open spec fn scan_nodes(
    slots: Seq<Option<TTEntry>>,
    mask: usize,
    gen: u16,
    b: Seq<i8>,
    sh: Seq<u8>,
    gh: Seq<u8>,
    depth: u8,
    eod: u8,
    maximizing: bool,
    variant: GameVariant,
    moves: Seq<ShogiMove>,
    order: Seq<usize>,
    j: int,
    alpha: i32,
    beta: i32,
    flag: u8,
) -> int
    decreases depth, 0int, order.len() - j,
{
    if j < 0 || j >= order.len() || depth == 0 {
        0
    } else {
        let idx = order[j];
        let a = position_after(b, moves[idx as int], sh, gh, player(maximizing), variant);
        let child = search(slots, mask, gen, a.0, a.1, a.2, (depth - 1) as u8, alpha, beta, !maximizing, eod, variant);
        let n = search_nodes(slots, mask, gen, a.0, a.1, a.2, (depth - 1) as u8, alpha, beta, !maximizing, eod, variant);
        let score = child.0;
        if maximizing {
            let (a2, f2) = if score > alpha {
                (score, TT_EXACT)
            } else {
                (alpha, flag)
            };
            if beta <= a2 {
                n
            } else {
                n + scan_nodes(child.2, mask, gen, b, sh, gh, depth, eod, maximizing, variant, moves, order, j + 1, a2, beta, f2)
            }
        } else {
            let (be2, f2) = if score < beta {
                (score, TT_EXACT)
            } else {
                (beta, flag)
            };
            if be2 <= alpha {
                n
            } else {
                n + scan_nodes(child.2, mask, gen, b, sh, gh, depth, eod, maximizing, variant, moves, order, j + 1, alpha, be2, f2)
            }
        }
    }
}


proof fn lemma_count_step(pre: int, c: int, x: int)
    requires
        x == (pre + c) % 0x1_0000_0000_0000_0000,
    ensures
        forall|rest: int|
            #[trigger] ((x + rest) % 0x1_0000_0000_0000_0000) == (pre + (c + rest)) % 0x1_0000_0000_0000_0000,
        x % 0x1_0000_0000_0000_0000 == x,
{
    let m: int = 0x1_0000_0000_0000_0000;
    assert forall|rest: int| #[trigger] ((x + rest) % m) == (pre + (c + rest)) % m by {
        vstd::arithmetic::div_mod::lemma_add_mod_noop(pre + c, rest, m);
        vstd::arithmetic::div_mod::lemma_add_mod_noop(x, rest, m);
        vstd::arithmetic::div_mod::lemma_mod_twice(pre + c, m);
        assert(pre + c + rest == pre + (c + rest));
    }
    vstd::arithmetic::div_mod::lemma_mod_twice(pre + c, m);
}


proof fn lemma_count_root(old_nodes: int, n0: int, total: int)
    requires
        n0 == (old_nodes + 1) % 0x1_0000_0000_0000_0000,
    ensures
        (n0 + total) % 0x1_0000_0000_0000_0000 == (old_nodes + (1 + total)) % 0x1_0000_0000_0000_0000,
{
    lemma_count_step(old_nodes, 1, n0);
    assert(((n0 + total) % 0x1_0000_0000_0000_0000) == (old_nodes + (1 + total)) % 0x1_0000_0000_0000_0000);
}

/// The indices of `moves` in the order a node at `depth` searches them.
fn order_moves(moves: &Vec<ShogiMove>, board: &Board, tt_best: Option<usize>, depth: u8) -> (order: Vec<
    usize,
>)
    requires
        all_shape_ok(moves@),
        moves@.len() > 0,
    ensures
        order@ == search_order(moves@, board@, tt_best, depth),
        order@.len() > 0,
        forall|k: int| 0 <= k < order@.len() ==> #[trigger] order@[k] < moves@.len(),
{
    let ghost keys = ordering_keys(moves@, board@, tt_best);
    let mut scored: Vec<(i32, usize)> = Vec::new();
    let mut i: usize = 0;
    while i < moves.len()
        invariant
            0 <= i <= moves@.len(),
            all_shape_ok(moves@),
            keys == ordering_keys(moves@, board@, tt_best),
            scored@ == keys.take(i as int),
        decreases moves@.len() - i,
    {
        let s = score_move_for_ordering(&moves[i], board, tt_best, i);
        scored.push((s, i));
        assert(scored@ =~= keys.take(i as int + 1));
        i += 1;
    }
    assert(scored@ =~= keys);
    let sorted = sort_by_score_desc(&scored);
    assert forall|k: int| 0 <= k < sorted@.len() implies #[trigger] sorted@[k].1 < moves@.len() by {
        assert(scored@.contains(sorted@[k]));
    }
    let mut order: Vec<usize> = Vec::new();
    if depth <= 2 {
        // Late move pruning: at most eight drops near the leaves.
        let mut drop_count: usize = 0;
        let mut j: usize = 0;
        while j < sorted.len()
            invariant
                0 <= j <= sorted@.len(),
                sorted@.len() == moves@.len(),
                drop_count <= j,
                forall|k: int| 0 <= k < sorted@.len() ==> #[trigger] sorted@[k].1 < moves@.len(),
                forall|k: int| 0 <= k < order@.len() ==> #[trigger] order@[k] < moves@.len(),
                j > 0 ==> order@.len() > 0,
                order@ + drops_capped(sorted@, moves@, j as int, drop_count as int) == drops_capped(
                    sorted@,
                    moves@,
                    0,
                    0,
                ),
            decreases sorted@.len() - j,
        {
            let idx = sorted[j].1;
            let ghost before = order@;
            let ghost rest = drops_capped(sorted@, moves@, j as int + 1, drop_count as int);
            if moves[idx].move_type == MOVE_TYPE_DROP {
                if drop_count < 8 {
                    order.push(idx);
                    drop_count += 1;
                    assert(before + (seq![idx] + rest) =~= order@ + rest);
                }
            } else {
                order.push(idx);
                assert(before + (seq![idx] + rest) =~= order@ + rest);
            }
            j += 1;
        }
        assert(drops_capped(sorted@, moves@, j as int, drop_count as int) == Seq::<usize>::empty());
        assert(order@ =~= drops_capped(sorted@, moves@, 0, 0));
    } else {
        let mut j: usize = 0;
        while j < sorted.len()
            invariant
                0 <= j <= sorted@.len(),
                sorted@.len() == moves@.len(),
                forall|k: int| 0 <= k < sorted@.len() ==> #[trigger] sorted@[k].1 < moves@.len(),
                order@ == sorted@.take(j as int).map_values(|p: (i32, usize)| p.1),
            decreases sorted@.len() - j,
        {
            order.push(sorted[j].1);
            assert(order@ =~= sorted@.take(j as int + 1).map_values(|p: (i32, usize)| p.1));
            j += 1;
        }
        assert(sorted@.take(j as int) =~= sorted@);
    }
    order
}

/// Alpha-beta search to `depth` plies with a transposition table, move
/// ordering and, within two plies of the leaves, at most eight drops per
/// node. The clock is read every 1024 nodes when a time budget is set; once
/// it runs out the search is aborted and unwinds with static evaluations.
/// A search that is not aborted returns what `search` describes and leaves
/// the table slots it describes.
#[verifier::spinoff_prover]
#[verifier::rlimit(100)]
pub fn minimax<C: Fn() -> u64>(
    state: &mut SearchState,
    clock: &C,
    board: &Board,
    s_hand: &Hand,
    g_hand: &Hand,
    depth: u8,
    alpha: i32,
    beta: i32,
    maximizing: bool,
    eval_owner_depth: u8,
    variant: GameVariant,
) -> (res: (i32, Option<ShogiMove>))
    requires
        old(state).tt.wf(),
        captures_fit(board@, s_hand@, g_hand@, maximizing, variant, depth as nat),
        clock.requires(()),
    ensures
        final(state).tt.wf(),
        final(state).tt.current_gen() == old(state).tt.current_gen(),
        final(state).tt.slot_mask() == old(state).tt.slot_mask(),
        final(state).time_limit == old(state).time_limit,
        final(state).start_time == old(state).start_time,
        old(state).aborted ==> final(state).aborted,
        !old(state).aborted && old(state).time_limit == 0 ==> !final(state).aborted,
        final(state).aborted && !old(state).aborted ==> old(state).time_limit > 0 && exists|t: u64|
            #[trigger] clock.ensures((), t) && t >= old(state).start_time && t - old(state).start_time >= old(state).time_limit,
        res.1 is None ==> final(state).nodes == old(state).nodes.wrapping_add(1) && final(state).tt.slots() == old(state).tt.slots(),
        !final(state).aborted ==> final(state).nodes as int == (old(state).nodes + search_nodes(
            old(state).tt.slots(),
            old(state).tt.slot_mask(),
            old(state).tt.current_gen(),
            board@,
            s_hand@,
            g_hand@,
            depth,
            alpha,
            beta,
            maximizing,
            eval_owner_depth,
            variant,
        )) % 0x1_0000_0000_0000_0000,
        old(state).aborted ==> res == (evaluation(board@, s_hand@, g_hand@, variant) as i32, None::<
            ShogiMove,
        >),
        !final(state).aborted ==> (res.0, res.1, final(state).tt.slots()) == search(
            old(state).tt.slots(),
            old(state).tt.slot_mask(),
            old(state).tt.current_gen(),
            board@,
            s_hand@,
            g_hand@,
            depth,
            alpha,
            beta,
            maximizing,
            eval_owner_depth,
            variant,
        ),
        depth == 0 ==> res == (evaluation(board@, s_hand@, g_hand@, variant) as i32, None::<
            ShogiMove,
        >),
        res.1 matches Some(m) ==> legal_moves(
            board@,
            player(maximizing),
            s_hand@,
            g_hand@,
            variant,
        ).contains(m),
        !final(state).aborted && depth > 0 && depth < eval_owner_depth ==> (probe_answer(
            old(state).tt.slots()[old(state).tt.slot(position_hash(board@, s_hand@, g_hand@, maximizing))],
            old(state).tt.current_gen(),
            position_hash(board@, s_hand@, g_hand@, maximizing),
            depth,
            alpha,
            beta,
        ) matches Some(hit) ==> res == (hit.0, None::<ShogiMove>)),
        !final(state).aborted && depth > 0 && (depth >= eval_owner_depth || probe_answer(
            old(state).tt.slots()[old(state).tt.slot(position_hash(board@, s_hand@, g_hand@, maximizing))],
            old(state).tt.current_gen(),
            position_hash(board@, s_hand@, g_hand@, maximizing),
            depth,
            alpha,
            beta,
        ) is None) ==> (legal_moves(board@, player(maximizing), s_hand@, g_hand@, variant).len()
            == 0 <==> res.1 is None) && (legal_moves(
            board@,
            player(maximizing),
            s_hand@,
            g_hand@,
            variant,
        ).len() == 0 ==> res.0 == (if in_check(board@, player(maximizing)) {
            mate_score(maximizing, depth)
        } else {
            0
        })),
    decreases depth,
{
    state.nodes = state.nodes.wrapping_add(1);
    // Check the clock every 1024 nodes.
    if state.time_limit > 0 && (state.nodes & 1023) == 0 {
        let now = clock();
        if now >= state.start_time && now - state.start_time >= state.time_limit as u64 {
            state.aborted = true;
            assert(clock.ensures((), now));
            return (evaluate(board, s_hand, g_hand, variant), None);
        }
    }
    if state.aborted {
        return (evaluate(board, s_hand, g_hand, variant), None);
    }
    let owner = if maximizing {
        SENTE
    } else {
        GOTE
    };
    if depth == 0 {
        return (evaluate(board, s_hand, g_hand, variant), None);
    }
    let hash = hash_board(board, s_hand, g_hand, maximizing);
    proof {
        state.tt.lemma_slot_in_range(hash);
    }
    // Transposition table probe
    let tt_hit = if depth < eval_owner_depth {
        state.tt.probe(hash, depth, alpha, beta)
    } else {
        None
    };
    if let Some((score, _)) = tt_hit {
        return (score, None);
    }
    let tt_best_move = state.tt.get_best_move(hash);
    let moves = get_all_legal_moves(board, owner, s_hand, g_hand, variant);
    if moves.len() == 0 {
        if is_in_check(board, owner) {
            let mate_score = if maximizing {
                -99999 + (MAX_DEPTH as i32 - depth as i32) * 100
            } else {
                99999 - (MAX_DEPTH as i32 - depth as i32) * 100
            };
            return (mate_score, None);
        }
        return (0, None);  // stalemate
    }
    // Move ordering
    let order = order_moves(&moves, board, tt_best_move, depth);
    let ghost slots0 = state.tt.slots();
    let ghost mask = state.tt.slot_mask();
    let ghost gen = state.tt.current_gen();
    let ghost total = scan(
        slots0,
        mask,
        gen,
        board@,
        s_hand@,
        g_hand@,
        depth,
        eval_owner_depth,
        maximizing,
        variant,
        moves@,
        order@,
        0,
        alpha,
        beta,
        if maximizing {
            i32::MIN
        } else {
            i32::MAX
        },
        order@[0],
        if maximizing {
            TT_ALPHA
        } else {
            TT_BETA
        },
    );
    let ghost alpha0 = alpha;
    let ghost beta0 = beta;
    let ghost n0 = state.nodes;
    let ghost total_n = scan_nodes(
        slots0,
        mask,
        gen,
        board@,
        s_hand@,
        g_hand@,
        depth,
        eval_owner_depth,
        maximizing,
        variant,
        moves@,
        order@,
        0,
        alpha,
        beta,
        if maximizing {
            TT_ALPHA
        } else {
            TT_BETA
        },
    );
    proof {
        assert(n0 as int == (old(state).nodes + 1) % 0x1_0000_0000_0000_0000);
    }
    let mut alpha = alpha;
    let mut beta = beta;
    let mut best_move_idx = order[0];
    let mut best_score: i32;
    let mut tt_flag: u8;
    if maximizing {
        best_score = i32::MIN;
        tt_flag = TT_ALPHA;
        let mut j: usize = 0;
        while j < order.len()
            invariant_except_break
                !state.aborted,
                scan(
                    state.tt.slots(),
                    mask,
                    gen,
                    board@,
                    s_hand@,
                    g_hand@,
                    depth,
                    eval_owner_depth,
                    maximizing,
                    variant,
                    moves@,
                    order@,
                    j as int,
                    alpha,
                    beta,
                    best_score,
                    best_move_idx,
                    tt_flag,
                ) == total,
                (state.nodes + scan_nodes(
                    state.tt.slots(),
                    mask,
                    gen,
                    board@,
                    s_hand@,
                    g_hand@,
                    depth,
                    eval_owner_depth,
                    maximizing,
                    variant,
                    moves@,
                    order@,
                    j as int,
                    alpha,
                    beta,
                    tt_flag,
                )) % 0x1_0000_0000_0000_0000 == (n0 + total_n) % 0x1_0000_0000_0000_0000,
            invariant
                0 <= j <= order@.len(),
                state.tt.wf(),
                state.tt.current_gen() == gen,
                state.tt.slot_mask() == mask,
                gen == old(state).tt.current_gen(),
                mask == old(state).tt.slot_mask(),
                state.time_limit == old(state).time_limit,
                state.start_time == old(state).start_time,
                !old(state).aborted,
                state.time_limit == 0 ==> !state.aborted,
                state.aborted ==> old(state).time_limit > 0 && exists|t: u64|
                    #[trigger] clock.ensures((), t) && t >= old(state).start_time && t - old(state).start_time >= old(state).time_limit,
                owner == SENTE,
                maximizing,
                depth > 0,
                captures_fit(board@, s_hand@, g_hand@, maximizing, variant, depth as nat),
                clock.requires(()),
                moves@ == legal_moves(board@, owner, s_hand@, g_hand@, variant),
                all_shape_ok(moves@),
                best_move_idx < moves@.len(),
                forall|k: int| 0 <= k < order@.len() ==> #[trigger] order@[k] < moves@.len(),
            ensures
                !state.aborted ==> (best_score, best_move_idx, tt_flag, state.tt.slots()) == total,
                !state.aborted ==> state.nodes as int == (n0 + total_n) % 0x1_0000_0000_0000_0000,
            decreases order@.len() - j,
        {
            let idx = order[j];
            let m = moves[idx];
            proof {
                assert(move_shape_ok(moves@[idx as int]));
                reveal(captures_fit);
                assert(legal_moves(board@, player(maximizing), s_hand@, g_hand@, variant)[idx as int] == m);
            }
            let ghost pre_slots = state.tt.slots();
            let ghost pre_nodes = state.nodes;
            let ghost pre_alpha = alpha;
            let ghost pre_beta = beta;
            let (nb, nsh, ngh) = apply_move(board, &m, s_hand, g_hand, owner, variant);
            proof {
                assert((nb@, nsh@, ngh@) == position_after(board@, m, s_hand@, g_hand@, player(maximizing), variant));
            }
            let (score, _) = minimax(
                state,
                clock,
                &nb,
                &nsh,
                &ngh,
                depth - 1,
                alpha,
                beta,
                false,
                eval_owner_depth,
                variant,
            );
            if state.aborted {
                break;
            }
            proof {
                let child_n = search_nodes(
                    pre_slots,
                    mask,
                    gen,
                    nb@,
                    nsh@,
                    ngh@,
                    (depth - 1) as u8,
                    pre_alpha,
                    pre_beta,
                    !maximizing,
                    eval_owner_depth,
                    variant,
                );
                lemma_count_step(pre_nodes as int, child_n, state.nodes as int);
            }
            if score > best_score {
                best_score = score;
                best_move_idx = idx;
            }
            if score > alpha {
                alpha = score;
                tt_flag = TT_EXACT;
            }
            if beta <= alpha {
                tt_flag = TT_BETA;
                break;
            }
            j += 1;
        }
    } else {
        best_score = i32::MAX;
        tt_flag = TT_BETA;
        let mut j: usize = 0;
        while j < order.len()
            invariant_except_break
                !state.aborted,
                scan(
                    state.tt.slots(),
                    mask,
                    gen,
                    board@,
                    s_hand@,
                    g_hand@,
                    depth,
                    eval_owner_depth,
                    maximizing,
                    variant,
                    moves@,
                    order@,
                    j as int,
                    alpha,
                    beta,
                    best_score,
                    best_move_idx,
                    tt_flag,
                ) == total,
                (state.nodes + scan_nodes(
                    state.tt.slots(),
                    mask,
                    gen,
                    board@,
                    s_hand@,
                    g_hand@,
                    depth,
                    eval_owner_depth,
                    maximizing,
                    variant,
                    moves@,
                    order@,
                    j as int,
                    alpha,
                    beta,
                    tt_flag,
                )) % 0x1_0000_0000_0000_0000 == (n0 + total_n) % 0x1_0000_0000_0000_0000,
            invariant
                0 <= j <= order@.len(),
                state.tt.wf(),
                state.tt.current_gen() == gen,
                state.tt.slot_mask() == mask,
                gen == old(state).tt.current_gen(),
                mask == old(state).tt.slot_mask(),
                state.time_limit == old(state).time_limit,
                state.start_time == old(state).start_time,
                !old(state).aborted,
                state.time_limit == 0 ==> !state.aborted,
                state.aborted ==> old(state).time_limit > 0 && exists|t: u64|
                    #[trigger] clock.ensures((), t) && t >= old(state).start_time && t - old(state).start_time >= old(state).time_limit,
                owner == GOTE,
                !maximizing,
                depth > 0,
                captures_fit(board@, s_hand@, g_hand@, maximizing, variant, depth as nat),
                clock.requires(()),
                moves@ == legal_moves(board@, owner, s_hand@, g_hand@, variant),
                all_shape_ok(moves@),
                best_move_idx < moves@.len(),
                forall|k: int| 0 <= k < order@.len() ==> #[trigger] order@[k] < moves@.len(),
            ensures
                !state.aborted ==> (best_score, best_move_idx, tt_flag, state.tt.slots()) == total,
                !state.aborted ==> state.nodes as int == (n0 + total_n) % 0x1_0000_0000_0000_0000,
            decreases order@.len() - j,
        {
            let idx = order[j];
            let m = moves[idx];
            proof {
                assert(move_shape_ok(moves@[idx as int]));
                reveal(captures_fit);
                assert(legal_moves(board@, player(maximizing), s_hand@, g_hand@, variant)[idx as int] == m);
            }
            let ghost pre_slots = state.tt.slots();
            let ghost pre_nodes = state.nodes;
            let ghost pre_alpha = alpha;
            let ghost pre_beta = beta;
            let (nb, nsh, ngh) = apply_move(board, &m, s_hand, g_hand, owner, variant);
            proof {
                assert((nb@, nsh@, ngh@) == position_after(board@, m, s_hand@, g_hand@, player(maximizing), variant));
            }
            let (score, _) = minimax(
                state,
                clock,
                &nb,
                &nsh,
                &ngh,
                depth - 1,
                alpha,
                beta,
                true,
                eval_owner_depth,
                variant,
            );
            if state.aborted {
                break;
            }
            proof {
                let child_n = search_nodes(
                    pre_slots,
                    mask,
                    gen,
                    nb@,
                    nsh@,
                    ngh@,
                    (depth - 1) as u8,
                    pre_alpha,
                    pre_beta,
                    !maximizing,
                    eval_owner_depth,
                    variant,
                );
                lemma_count_step(pre_nodes as int, child_n, state.nodes as int);
            }
            if score < best_score {
                best_score = score;
                best_move_idx = idx;
            }
            if score < beta {
                beta = score;
                tt_flag = TT_EXACT;
            }
            if beta <= alpha {
                tt_flag = TT_ALPHA;
                break;
            }
            j += 1;
        }
    }
    proof {
        lemma_count_root(old(state).nodes as int, n0 as int, total_n);
        assert(search_nodes(
            old(state).tt.slots(),
            old(state).tt.slot_mask(),
            old(state).tt.current_gen(),
            board@,
            s_hand@,
            g_hand@,
            depth,
            alpha0,
            beta0,
            maximizing,
            eval_owner_depth,
            variant,
        ) == 1 + total_n);
    }
    if !state.aborted {
        state.tt.store(hash, depth, best_score, tt_flag, Some(best_move_idx));
    }
    (best_score, Some(moves[best_move_idx]))
}

/// Iterative deepening over depths `d` to `upto` when the clock never stops
/// it, from a table holding `slots` and with `kept` the result kept so far:
/// each depth is searched with the widest window, a result with a move
/// replaces the kept one, and a mate score ends the deepening.
pub open spec fn deepen(
    slots: Seq<Option<TTEntry>>,
    mask: usize,
    gen: u16,
    b: Seq<i8>,
    sh: Seq<u8>,
    gh: Seq<u8>,
    d: int,
    upto: int,
    maximizing: bool,
    variant: GameVariant,
    kept: (i32, Option<ShogiMove>),
) -> (i32, Option<ShogiMove>)
    decreases upto - d,
{
    if d < 1 || d > upto || d > 255 {
        kept
    } else {
        let r = search(
            slots,
            mask,
            gen,
            b,
            sh,
            gh,
            d as u8,
            (i32::MIN + 1) as i32,
            (i32::MAX - 1) as i32,
            maximizing,
            d as u8,
            variant,
        );
        let k2 = if r.1 is Some {
            (r.0, r.1)
        } else {
            kept
        };
        if r.0 > 90000 || r.0 < -90000 || d >= upto {
            k2
        } else {
            deepen(r.2, mask, gen, b, sh, gh, d + 1, upto, maximizing, variant, k2)
        }
    }
}

/// Number of nodes visited by `deepen` over depths `d` to `upto` from a
/// table holding `slots`.
pub open spec fn deepen_nodes(
    slots: Seq<Option<TTEntry>>,
    mask: usize,
    gen: u16,
    b: Seq<i8>,
    sh: Seq<u8>,
    gh: Seq<u8>,
    d: int,
    upto: int,
    maximizing: bool,
    variant: GameVariant,
) -> int
    decreases upto - d,
{
    if d < 1 || d > upto || d > 255 {
        0
    } else {
        let r = search(slots, mask, gen, b, sh, gh, d as u8, (i32::MIN + 1) as i32, (i32::MAX - 1) as i32, maximizing, d as u8, variant);
        let n = search_nodes(slots, mask, gen, b, sh, gh, d as u8, (i32::MIN + 1) as i32, (i32::MAX - 1) as i32, maximizing, d as u8, variant);
        if r.0 > 90000 || r.0 < -90000 || d >= upto {
            n
        } else {
            n + deepen_nodes(r.2, mask, gen, b, sh, gh, d + 1, upto, maximizing, variant)
        }
    }
}

/// One step of `deepen`: a search at depth `d`, then the deeper ones.
proof fn lemma_deepen_step(
    slots: Seq<Option<TTEntry>>,
    mask: usize,
    gen: u16,
    b: Seq<i8>,
    sh: Seq<u8>,
    gh: Seq<u8>,
    d: int,
    maximizing: bool,
    variant: GameVariant,
    kept: (i32, Option<ShogiMove>),
    r: (i32, Option<ShogiMove>, Seq<Option<TTEntry>>),
)
    requires
        1 <= d <= 255,
        r == search(
            slots,
            mask,
            gen,
            b,
            sh,
            gh,
            d as u8,
            (i32::MIN + 1) as i32,
            (i32::MAX - 1) as i32,
            maximizing,
            d as u8,
            variant,
        ),
    ensures
        forall|k: int|
            d <= k ==> #[trigger] deepen(slots, mask, gen, b, sh, gh, d, k, maximizing, variant, kept)
                == ({
                let k2 = if r.1 is Some {
                    (r.0, r.1)
                } else {
                    kept
                };
                if r.0 > 90000 || r.0 < -90000 || d >= k {
                    k2
                } else {
                    deepen(r.2, mask, gen, b, sh, gh, d + 1, k, maximizing, variant, k2)
                }
            }),
{
}

/// Searches depths 1, 2, ... up to `max_depth`, keeping the result of the
/// deepest completed search that found a move; stops early when the time
/// budget runs out or a forced mate is found. Starts a new transposition
/// table generation and reads the start time from `clock`.
#[verifier::spinoff_prover]
#[verifier::rlimit(100)]
pub fn iterative_deepening<C: Fn() -> u64>(
    state: &mut SearchState,
    clock: &C,
    board: &Board,
    s_hand: &Hand,
    g_hand: &Hand,
    max_depth: u8,
    maximizing: bool,
    time_limit_ms: u32,
    variant: GameVariant,
) -> (res: (i32, Option<ShogiMove>))
    requires
        old(state).tt.wf(),
        captures_fit(board@, s_hand@, g_hand@, maximizing, variant, max_depth as nat),
        clock.requires(()),
    ensures
        final(state).tt.wf(),
        final(state).tt.current_gen() == old(state).tt.current_gen().wrapping_add(1),
        final(state).time_limit == time_limit_ms,
        time_limit_ms == 0 ==> !final(state).aborted,
        clock.ensures((), final(state).start_time),
        exists|k: int|
            0 <= k <= max_depth && res == deepen(
                old(state).tt.slots(),
                old(state).tt.slot_mask(),
                old(state).tt.current_gen().wrapping_add(1),
                board@,
                s_hand@,
                g_hand@,
                1,
                k,
                maximizing,
                variant,
                (0i32, None::<ShogiMove>),
            ) && (k == max_depth || time_limit_ms > 0 && exists|t: u64|
                #[trigger] clock.ensures((), t) && t >= final(state).start_time && t - final(state).start_time
                    >= time_limit_ms),
        time_limit_ms == 0 ==> final(state).nodes as int == deepen_nodes(
            old(state).tt.slots(),
            old(state).tt.slot_mask(),
            old(state).tt.current_gen().wrapping_add(1),
            board@,
            s_hand@,
            g_hand@,
            1,
            max_depth as int,
            maximizing,
            variant,
        ) % 0x1_0000_0000_0000_0000,
        time_limit_ms == 0 ==> res == deepen(
            old(state).tt.slots(),
            old(state).tt.slot_mask(),
            old(state).tt.current_gen().wrapping_add(1),
            board@,
            s_hand@,
            g_hand@,
            1,
            max_depth as int,
            maximizing,
            variant,
            (0i32, None::<ShogiMove>),
        ),
        max_depth == 0 ==> res == (0i32, None::<ShogiMove>),
        legal_moves(board@, player(maximizing), s_hand@, g_hand@, variant).len() == 0 ==> res == (
        0i32, None::<ShogiMove>),
        time_limit_ms == 0 && max_depth >= 1 && legal_moves(
            board@,
            player(maximizing),
            s_hand@,
            g_hand@,
            variant,
        ).len() > 0 ==> res.1 is Some,
        res.1 matches Some(m) ==> legal_moves(
            board@,
            player(maximizing),
            s_hand@,
            g_hand@,
            variant,
        ).contains(m),
{
    state.tt.clear();
    state.nodes = 0;
    state.time_limit = time_limit_ms;
    state.start_time = clock();
    state.aborted = false;
    let mut best_result: (i32, Option<ShogiMove>) = (0, None);
    let ghost slots0 = state.tt.slots();
    let ghost mask = state.tt.slot_mask();
    let ghost gen = state.tt.current_gen();
    let mut d: u16 = 1;
    loop
        invariant_except_break
            !state.aborted,
            time_limit_ms == 0 ==> (state.nodes + deepen_nodes(
                state.tt.slots(),
                mask,
                gen,
                board@,
                s_hand@,
                g_hand@,
                d as int,
                max_depth as int,
                maximizing,
                variant,
            )) % 0x1_0000_0000_0000_0000 == deepen_nodes(
                slots0,
                mask,
                gen,
                board@,
                s_hand@,
                g_hand@,
                1,
                max_depth as int,
                maximizing,
                variant,
            ) % 0x1_0000_0000_0000_0000,
            forall|k: int|
                d - 1 <= k <= max_depth ==> #[trigger] deepen(
                    slots0,
                    mask,
                    gen,
                    board@,
                    s_hand@,
                    g_hand@,
                    1,
                    k,
                    maximizing,
                    variant,
                    (0i32, None::<ShogiMove>),
                ) == deepen(
                    state.tt.slots(),
                    mask,
                    gen,
                    board@,
                    s_hand@,
                    g_hand@,
                    d as int,
                    k,
                    maximizing,
                    variant,
                    best_result,
                ),
        invariant
            1 <= d <= max_depth as u16 + 1,
            state.tt.wf(),
            state.tt.current_gen() == gen,
            state.tt.slot_mask() == mask,
            gen == old(state).tt.current_gen().wrapping_add(1),
            mask == old(state).tt.slot_mask(),
            slots0 == old(state).tt.slots(),
            state.time_limit == time_limit_ms,
            time_limit_ms == 0 ==> !state.aborted,
            clock.ensures((), state.start_time),
            state.aborted ==> time_limit_ms > 0 && exists|t: u64|
                #[trigger] clock.ensures((), t) && t >= state.start_time && t - state.start_time
                    >= time_limit_ms,
            captures_fit(board@, s_hand@, g_hand@, maximizing, variant, max_depth as nat),
            clock.requires(()),
            max_depth == 0 ==> best_result == (0i32, None::<ShogiMove>),
            legal_moves(board@, player(maximizing), s_hand@, g_hand@, variant).len() == 0
                ==> best_result == (0i32, None::<ShogiMove>),
            d > 1 && time_limit_ms == 0 && legal_moves(
                board@,
                player(maximizing),
                s_hand@,
                g_hand@,
                variant,
            ).len() > 0 ==> best_result.1 is Some,
            best_result.1 matches Some(m) ==> legal_moves(
                board@,
                player(maximizing),
                s_hand@,
                g_hand@,
                variant,
            ).contains(m),
        ensures
            time_limit_ms == 0 ==> state.nodes as int == deepen_nodes(
                slots0,
                mask,
                gen,
                board@,
                s_hand@,
                g_hand@,
                1,
                max_depth as int,
                maximizing,
                variant,
            ) % 0x1_0000_0000_0000_0000,
            time_limit_ms == 0 && max_depth >= 1 && legal_moves(
                board@,
                player(maximizing),
                s_hand@,
                g_hand@,
                variant,
            ).len() > 0 ==> best_result.1 is Some,
            exists|k: int|
                0 <= k <= max_depth && best_result == deepen(
                    slots0,
                    mask,
                    gen,
                    board@,
                    s_hand@,
                    g_hand@,
                    1,
                    k,
                    maximizing,
                    variant,
                    (0i32, None::<ShogiMove>),
                ) && (k == max_depth || time_limit_ms > 0 && exists|t: u64|
                    #[trigger] clock.ensures((), t) && t >= state.start_time && t - state.start_time
                        >= time_limit_ms),
            time_limit_ms == 0 ==> best_result == deepen(
                slots0,
                mask,
                gen,
                board@,
                s_hand@,
                g_hand@,
                1,
                max_depth as int,
                maximizing,
                variant,
                (0i32, None::<ShogiMove>),
            ),
        decreases max_depth as u16 + 1 - d,
    {
        if d > max_depth as u16 {
            proof {
                let k = max_depth as int;
                assert(deepen(slots0, mask, gen, board@, s_hand@, g_hand@, 1, k, maximizing, variant, (0i32, None::<ShogiMove>))
                    == deepen(state.tt.slots(), mask, gen, board@, s_hand@, g_hand@, d as int, k, maximizing, variant, best_result));
            }
            break;
        }
        let ghost pre_slots = state.tt.slots();
        let ghost pre_best = best_result;
        let ghost pre_nodes = state.nodes;
        proof {
            let k = d - 1;
            assert(deepen(slots0, mask, gen, board@, s_hand@, g_hand@, 1, k, maximizing, variant, (0i32, None::<ShogiMove>))
                == deepen(pre_slots, mask, gen, board@, s_hand@, g_hand@, d as int, k, maximizing, variant, pre_best));
        }
        proof {
            lemma_captures_fit_fewer(board@, s_hand@, g_hand@, maximizing, variant, max_depth as nat, d as nat);
        }
        let result = minimax(
            state,
            clock,
            board,
            s_hand,
            g_hand,
            d as u8,
            i32::MIN + 1,
            i32::MAX - 1,
            maximizing,
            d as u8,
            variant,
        );
        if state.aborted {
            break;
        }
        if result.1.is_some() {
            best_result = result;
        }
        proof {
            lemma_deepen_step(
                pre_slots,
                mask,
                gen,
                board@,
                s_hand@,
                g_hand@,
                d as int,
                maximizing,
                variant,
                pre_best,
                (result.0, result.1, state.tt.slots()),
            );
            let k = d as int;
            assert(deepen(slots0, mask, gen, board@, s_hand@, g_hand@, 1, k, maximizing, variant, (0i32, None::<ShogiMove>))
                == deepen(pre_slots, mask, gen, board@, s_hand@, g_hand@, d as int, k, maximizing, variant, pre_best));
            let k = max_depth as int;
            assert(deepen(slots0, mask, gen, board@, s_hand@, g_hand@, 1, k, maximizing, variant, (0i32, None::<ShogiMove>))
                == deepen(pre_slots, mask, gen, board@, s_hand@, g_hand@, d as int, k, maximizing, variant, pre_best));
        }
        proof {
            let n = search_nodes(
                pre_slots,
                mask,
                gen,
                board@,
                s_hand@,
                g_hand@,
                d as u8,
                (i32::MIN + 1) as i32,
                (i32::MAX - 1) as i32,
                maximizing,
                d as u8,
                variant,
            );
            lemma_count_step(pre_nodes as int, n, state.nodes as int);
        }
        // Stop on a forced mate.
        if result.0 > 90000 || result.0 < -90000 {
            break;
        }
        // Stop when the time budget is spent.
        if state.time_limit > 0 {
            let now = clock();
            if now >= state.start_time && now - state.start_time >= state.time_limit as u64 {
                assert(clock.ensures((), now));
                break;
            }
        }
        d += 1;
    }
    best_result
}

/// Mate scores: within the engine's depth, a side that is mated scores
/// beyond 90000 against itself, and a mate found with more depth left (so
/// nearer the root) scores more extremely.
pub proof fn lemma_mate_scores(d1: u8, d2: u8)
    requires
        d1 <= MAX_DEPTH,
        d2 < d1,
    ensures
        mate_score(true, d1) < -90000,
        mate_score(false, d1) > 90000,
        mate_score(true, d1) < mate_score(true, d2),
        mate_score(false, d1) > mate_score(false, d2),
{
}

} // verus!
