use vstd::prelude::*;

use crate::check::{col_of, row_of};
use crate::movegen::{at, forward};
use crate::types::{
    abs_piece, board_get, hand_kind, hand_piece_type, kind_of, lemma_sq_index, owner_of,
    piece_owner, piece_value, sq_index, value_of, Board, GameVariant, Hand, BOARD_COLS, BOARD_ROWS,
    EMPTY, FU, KO, NIN, OU, SENTE,
};

verus! {

/// Positional adjustment of a piece of kind `a` owned by `owner` on `(r, c)`:
/// pawns gain as they advance, KO gains as it approaches the enemy camp, an
/// ouke NIN whose front square is off the board or held by its own side is
/// penalised, and the king is penalised by its distance from the centre file.
pub open spec fn positional(b: Seq<i8>, variant: GameVariant, a: i8, owner: i8, r: int, c: int) -> int {
    if a == FU {
        if owner == SENTE {
            (6 - r) * 2
        } else {
            (r - 2) * 2
        }
    } else if a == KO {
        if owner == SENTE {
            (8 - r) * 15
        } else {
            r * 15
        }
    } else if a == NIN && variant == GameVariant::Ouke {
        let front = r + forward(owner);
        if front < 0 || front >= 9 {
            -200
        } else if owner_of(at(b, front, c)) == owner {
            -150
        } else {
            0
        }
    } else if a == OU {
        -(if c >= 4 {
            c - 4
        } else {
            4 - c
        }) * 5
    } else {
        0
    }
}

/// Contribution of square `k`: its owner's sign times the piece value plus the
/// positional adjustment.
pub open spec fn square_score(b: Seq<i8>, variant: GameVariant, k: int) -> int {
    let p = b[k];
    if p == EMPTY {
        0
    } else {
        let a = kind_of(p);
        owner_of(p) * (value_of(a) + positional(b, variant, a, owner_of(p), row_of(k), col_of(k)))
    }
}

/// Sum of the contributions of the first `k` squares.
pub open spec fn board_score(b: Seq<i8>, variant: GameVariant, k: int) -> int
    decreases k,
{
    if k <= 0 {
        0
    } else {
        board_score(b, variant, k - 1) + square_score(b, variant, k - 1)
    }
}

/// Pieces in hand count 85% (rounded down) of their value, for sente and
/// against gote; sum over the first `n` hand kinds.
pub open spec fn hand_score(sh: Seq<u8>, gh: Seq<u8>, n: int) -> int
    decreases n,
{
    if n <= 0 {
        0
    } else {
        let v = value_of(hand_kind(n - 1)) * 85 / 100;
        hand_score(sh, gh, n - 1) + sh[n - 1] * v - gh[n - 1] * v
    }
}

/// Static evaluation from sente's point of view.
pub open spec fn evaluation(b: Seq<i8>, sh: Seq<u8>, gh: Seq<u8>, variant: GameVariant) -> int {
    board_score(b, variant, 81) + hand_score(sh, gh, 8)
}

proof fn lemma_hand_score_bound(sh: Seq<u8>, gh: Seq<u8>, n: int)
    requires
        0 <= n <= 8,
        sh.len() == 8,
        gh.len() == 8,
    ensures
        -n * 255 * 595 <= hand_score(sh, gh, n) <= n * 255 * 595,
    decreases n,
{
    if n > 0 {
        lemma_hand_score_bound(sh, gh, n - 1);
        let v = value_of(hand_kind(n - 1)) * 85 / 100;
        assert(0 <= v <= 595);
        assert(0 <= sh[n - 1] * v <= 255 * 595) by (nonlinear_arith)
            requires
                0 <= sh[n - 1] <= 255,
                0 <= v <= 595,
        ;
        assert(0 <= gh[n - 1] * v <= 255 * 595) by (nonlinear_arith)
            requires
                0 <= gh[n - 1] <= 255,
                0 <= v <= 595,
        ;
    }
}

pub fn evaluate(board: &Board, s_hand: &Hand, g_hand: &Hand, variant: GameVariant) -> (score: i32)
    ensures
        score == evaluation(board@, s_hand@, g_hand@, variant),
        -3_000_000 <= score <= 3_000_000,
{
    let mut score: i32 = 0;
    let mut r: usize = 0;
    while r < BOARD_ROWS
        invariant
            0 <= r <= 9,
            score == board_score(board@, variant, sq_index(r as int, 0)),
            -sq_index(r as int, 0) * 10100 <= score <= sq_index(r as int, 0) * 10100,
        decreases 9 - r,
    {
        let mut c: usize = 0;
        while c < BOARD_COLS
            invariant
                0 <= r < 9,
                0 <= c <= 9,
                score == board_score(board@, variant, sq_index(r as int, c as int)),
                -sq_index(r as int, c as int) * 10100 <= score <= sq_index(r as int, c as int)
                    * 10100,
            decreases 9 - c,
        {
            proof {
                lemma_sq_index(r as int, c as int);
            }
            let p = board_get(board, r, c);
            if p != EMPTY {
                let owner = piece_owner(p);
                let a = abs_piece(p);
                let mut val = piece_value(a);
                let ri = r as i32;
                let ci = c as i32;
                // Pawn advancement bonus.
                if a == FU {
                    if owner == SENTE {
                        val += (6 - ri) * 2;
                    } else {
                        val += (ri - 2) * 2;
                    }
                }
                // KO bonus: closer to the enemy is better.
                if a == KO {
                    if owner == SENTE {
                        val += (8 - ri) * 15;
                    } else {
                        val += ri * 15;
                    }
                }
                // Ouke: NIN whose front is blocked.
                if a == NIN && variant == GameVariant::Ouke {
                    let dir: i32 = if owner == SENTE {
                        -1
                    } else {
                        1
                    };
                    let front_r = ri + dir;
                    if front_r < 0 || front_r >= BOARD_ROWS as i32 {
                        val -= 200;  // on the edge: birth always fails
                    } else if piece_owner(board_get(board, front_r as usize, c)) == owner {
                        val -= 150;  // blocked by an own piece
                    }
                }
                // King: penalty for distance from the centre file.
                if a == OU {
                    let center_dist = if ci >= 4 {
                        ci - 4
                    } else {
                        4 - ci
                    };
                    val -= center_dist * 5;
                }
                assert(val == value_of(a) + positional(board@, variant, a, owner, r as int, c as int));
                assert(-10100 <= owner as i32 * val <= 10100) by (nonlinear_arith)
                    requires
                        -1 <= owner <= 1,
                        -400 <= val <= 10100,
                ;
                score += owner as i32 * val;
            }
            c += 1;
        }
        r += 1;
    }
    assert(score == board_score(board@, variant, 81));
    proof {
        lemma_hand_score_bound(s_hand@, g_hand@, 8);
    }
    let mut i: usize = 0;
    while i < 8
        invariant
            0 <= i <= 8,
            score == board_score(board@, variant, 81) + hand_score(s_hand@, g_hand@, i as int),
            -81 * 10100 <= board_score(board@, variant, 81) <= 81 * 10100,
            -(i as int) * 255 * 595 <= hand_score(s_hand@, g_hand@, i as int) <= (i as int) * 255 * 595,
        decreases 8 - i,
    {
        proof {
            lemma_hand_score_bound(s_hand@, g_hand@, i as int);
            lemma_hand_score_bound(s_hand@, g_hand@, i as int + 1);
        }
        let pv = piece_value(hand_piece_type(i));
        let v = pv * 85 / 100;
        assert(0 <= s_hand[i as int] as i32 * v <= 255 * 595) by (nonlinear_arith)
            requires
                0 <= s_hand[i as int] <= 255,
                0 <= v <= 595,
        ;
        assert(0 <= g_hand[i as int] as i32 * v <= 255 * 595) by (nonlinear_arith)
            requires
                0 <= g_hand[i as int] <= 255,
                0 <= v <= 595,
        ;
        score += (s_hand[i] as i32) * (pv * 85 / 100);
        score -= (g_hand[i] as i32) * (pv * 85 / 100);
        i += 1;
    }
    score
}

/// The position seen from the other side: the board turned half a turn with
/// every piece changing owner.
pub open spec fn mirrored(b: Seq<i8>) -> Seq<i8> {
    Seq::new(81, |k: int| (-b[80 - k]) as i8)
}

pub(crate) proof fn lemma_mirror_square(k: int)
    requires
        0 <= k < 81,
    ensures
        row_of(80 - k) == 8 - row_of(k),
        col_of(80 - k) == 8 - col_of(k),
        0 <= row_of(k) < 9,
        0 <= col_of(k) < 9,
        sq_index(row_of(k), col_of(k)) == k,
{
    crate::legality::lemma_index_square(k);
    let r = row_of(k);
    let c = col_of(k);
    vstd::arithmetic::div_mod::lemma_fundamental_div_mod_converse(80 - k, 9, 8 - r, 8 - c);
}

proof fn lemma_square_score_mirror(b: Seq<i8>, variant: GameVariant, k: int)
    requires
        b.len() == 81,
        forall|j: int| 0 <= j < 81 ==> #[trigger] b[j] != i8::MIN,
        0 <= k < 81,
    ensures
        square_score(mirrored(b), variant, k) == -square_score(b, variant, 80 - k),
{
    let mb = mirrored(b);
    let j = 80 - k;
    let p = b[j];
    lemma_mirror_square(k);
    lemma_mirror_square(j);
    assert(mb[k] == (-p) as i8);
    if p != EMPTY {
        let o = owner_of(p);
        let a = kind_of(p);
        let r = row_of(j);
        let c = col_of(j);
        assert(owner_of(mb[k]) == -o);
        assert(kind_of(mb[k]) == a);
        assert(row_of(k) == 8 - r && col_of(k) == 8 - c);
        if a == NIN && variant == GameVariant::Ouke {
            let front = r + forward(o);
            let front2 = (8 - r) + forward((-o) as i8);
            assert(front2 == 8 - front);
            if 0 <= front < 9 {
                let fi = sq_index(front, c);
                let fi2 = sq_index(front2, 8 - c);
                assert(fi2 == 80 - fi);
                assert(b[fi] != i8::MIN);
                assert(mb[fi2] == (-b[fi]) as i8);
                assert(owner_of(at(mb, front2, 8 - c)) == -owner_of(at(b, front, c)));
            }
        }
        let x = value_of(a) + positional(b, variant, a, o, r, c);
        assert(positional(mb, variant, a, (-o) as i8, 8 - r, 8 - c) == positional(
            b,
            variant,
            a,
            o,
            r,
            c,
        ));
        assert(square_score(b, variant, j) == o * x);
        assert(square_score(mb, variant, k) == (-o) * x);
        assert((-o) * x == -(o * x)) by (nonlinear_arith);
    }
}

proof fn lemma_board_score_mirror(b: Seq<i8>, variant: GameVariant, n: int)
    requires
        b.len() == 81,
        forall|j: int| 0 <= j < 81 ==> #[trigger] b[j] != i8::MIN,
        0 <= n <= 81,
    ensures
        board_score(mirrored(b), variant, n) == board_score(b, variant, 81 - n) - board_score(
            b,
            variant,
            81,
        ),
    decreases n,
{
    if n > 0 {
        lemma_board_score_mirror(b, variant, n - 1);
        lemma_square_score_mirror(b, variant, n - 1);
    }
}

proof fn lemma_hand_score_swap(sh: Seq<u8>, gh: Seq<u8>, n: int)
    ensures
        hand_score(gh, sh, n) == -hand_score(sh, gh, n),
    decreases n,
{
    if n > 0 {
        lemma_hand_score_swap(sh, gh, n - 1);
    }
}

/// Evaluation is zero-sum: seen from the other side (board turned round,
/// owners and hands exchanged) a position evaluates to the opposite score.
/// A square holding -128 has no opposite value, so such boards are left out.
pub proof fn lemma_evaluation_antisymmetric(
    b: Seq<i8>,
    sh: Seq<u8>,
    gh: Seq<u8>,
    variant: GameVariant,
)
    requires
        b.len() == 81,
        forall|j: int| 0 <= j < 81 ==> #[trigger] b[j] != i8::MIN,
    ensures
        evaluation(mirrored(b), gh, sh, variant) == -evaluation(b, sh, gh, variant),
{
    lemma_board_score_mirror(b, variant, 81);
    lemma_hand_score_swap(sh, gh, 8);
}

proof fn lemma_square_score_bound(b: Seq<i8>, variant: GameVariant, k: int)
    requires
        0 <= k < 81,
    ensures
        -10200 <= square_score(b, variant, k) <= 10200,
{
    lemma_mirror_square(k);
    let p = b[k];
    if p != EMPTY {
        let a = kind_of(p);
        let v = value_of(a) + positional(b, variant, a, owner_of(p), row_of(k), col_of(k));
        assert(-200 <= v <= 10200);
        let o = owner_of(p) as int;
        assert(square_score(b, variant, k) == o * v);
        assert(-10200 <= o * v <= 10200) by (nonlinear_arith)
            requires
                o == 1 || o == -1,
                -200 <= v <= 10200,
        ;
    }
}

proof fn lemma_board_score_bound(b: Seq<i8>, variant: GameVariant, n: int)
    requires
        0 <= n <= 81,
    ensures
        -n * 10200 <= board_score(b, variant, n) <= n * 10200,
    decreases n,
{
    if n > 0 {
        lemma_board_score_bound(b, variant, n - 1);
        lemma_square_score_bound(b, variant, n - 1);
    }
}

/// The static evaluation stays within 3,000,000 either way.
pub(crate) proof fn lemma_evaluation_bound(b: Seq<i8>, sh: Seq<u8>, gh: Seq<u8>, variant: GameVariant)
    requires
        sh.len() == 8,
        gh.len() == 8,
    ensures
        -3_000_000 <= evaluation(b, sh, gh, variant) <= 3_000_000,
{
    lemma_board_score_bound(b, variant, 81);
    lemma_hand_score_bound(sh, gh, 8);
}

} // verus!
