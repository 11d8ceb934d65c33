use vstd::prelude::*;

use crate::movegen::{get_drop_squares, get_piece_moves, all_on_board, piece_moves};
use crate::types::{
    abs_piece, board_get, board_set, hand_kind, hand_piece_type, kind_of, lemma_sq_index, owner_of,
    piece_owner, sq_index, Board, GameVariant, Hand, BOARD_COLS, BOARD_ROWS, EMPTY, FU, KE, KY, OU,
    SENTE, GOTE,
};

verus! {

pub open spec fn row_of(k: int) -> int {
    k / 9
}

pub open spec fn col_of(k: int) -> int {
    k % 9
}

pub open spec fn is_king_of(v: i8, owner: i8) -> bool {
    owner_of(v) == owner && kind_of(v) == OU
}

/// The first square, scanning row-major from index `k`, holding `owner`'s king.
pub open spec fn king_from(b: Seq<i8>, owner: i8, k: int) -> Option<(usize, usize)>
    decreases 81 - k,
{
    if k < 0 || k >= 81 {
        None
    } else if is_king_of(b[k], owner) {
        Some((row_of(k) as usize, col_of(k) as usize))
    } else {
        king_from(b, owner, k + 1)
    }
}

/// `owner`'s king square: the first one in row-major order.
pub open spec fn king_square(b: Seq<i8>, owner: i8) -> Option<(usize, usize)> {
    king_from(b, owner, 0)
}

/// The piece on square `k` belongs to `owner`'s opponent and can move onto
/// `owner`'s king.
pub open spec fn checker_at(b: Seq<i8>, owner: i8, k: int) -> bool {
    &&& 0 <= k < 81
    &&& owner_of(b[k]) == -owner
    &&& match king_square(b, owner) {
        Some(ks) => piece_moves(b[k], row_of(k), col_of(k), b).contains(ks),
        None => false,
    }
}

/// `owner` is in check: they have no king, or an opposing piece attacks it.
pub open spec fn in_check(b: Seq<i8>, owner: i8) -> bool {
    king_square(b, owner) is None || exists|k: int| #[trigger] checker_at(b, owner, k)
}

/// The board after the piece on `(fr, fc)` moves (unchanged) to `(tr, tc)`.
pub open spec fn after_step(b: Seq<i8>, fr: int, fc: int, tr: int, tc: int) -> Seq<i8> {
    b.update(sq_index(tr, tc), b[sq_index(fr, fc)]).update(sq_index(fr, fc), EMPTY)
}

/// Moving the piece from `(fr, fc)` to `(tr, tc)` does not leave `owner` in check.
pub open spec fn legal_step(b: Seq<i8>, fr: int, fc: int, tr: int, tc: int, owner: i8) -> bool {
    !in_check(after_step(b, fr, fc, tr, tc), owner)
}

/// The `i`-th pseudo-legal move of `owner`'s piece on square `k` is legal.
pub open spec fn escape_at(b: Seq<i8>, owner: i8, k: int, i: int) -> bool {
    let pm = piece_moves(b[k], row_of(k), col_of(k), b);
    0 <= k < 81 && owner_of(b[k]) == owner && 0 <= i < pm.len() && legal_step(
        b,
        row_of(k),
        col_of(k),
        pm[i].0 as int,
        pm[i].1 as int,
        owner,
    )
}

pub open spec fn hand_for(owner: i8, sh: Seq<u8>, gh: Seq<u8>) -> Seq<u8> {
    if owner == SENTE {
        sh
    } else {
        gh
    }
}

/// Number of empty squares.
pub open spec fn empties(b: Seq<i8>) -> nat
    decreases b.len(),
{
    if b.len() == 0 {
        0
    } else {
        empties(b.drop_last()) + (if b.last() == EMPTY {
            1nat
        } else {
            0nat
        })
    }
}

/// Filling an empty square removes one empty square.
pub proof fn lemma_empties_fill(b: Seq<i8>, k: int, v: i8)
    requires
        0 <= k < b.len(),
        b[k] == EMPTY,
        v != EMPTY,
    ensures
        empties(b.update(k, v)) + 1 == empties(b),
    decreases b.len(),
{
    if k == b.len() - 1 {
        assert(b.update(k, v).drop_last() =~= b.drop_last());
    } else {
        lemma_empties_fill(b.drop_last(), k, v);
        assert(b.update(k, v).drop_last() =~= b.drop_last().update(k, v));
    }
}

/// `owner` has a pawn in column `c`.
pub open spec fn pawn_in_column(b: Seq<i8>, c: int, owner: i8) -> bool {
    exists|r: int| 0 <= r < 9 && #[trigger] b[sq_index(r, c)] == owner * FU
}

/// The rank restrictions on drops: no pawn or lance on the last rank, no
/// knight on the last two ranks.
pub open spec fn rank_allows_drop(pt: i8, owner: i8, r: int) -> bool {
    if owner == SENTE {
        !((pt == FU || pt == KY) && r == 0) && !(pt == KE && r <= 1)
    } else {
        !((pt == FU || pt == KY) && r == 8) && !(pt == KE && r >= 7)
    }
}

/// `owner` may drop a `pt` on square `k`: the square is empty, the rank allows
/// it, a pawn neither doubles another pawn nor gives mate, and the drop does
/// not leave `owner` in check.
pub open spec fn drop_ok(
    b: Seq<i8>,
    pt: i8,
    owner: i8,
    sh: Seq<u8>,
    gh: Seq<u8>,
    variant: GameVariant,
    k: int,
) -> bool
    decreases empties(b), 0int, 0int,
{
    if !(owner == SENTE || owner == GOTE) || b.len() != 81 || !(0 <= k < 81) {
        false
    } else if b[k] != EMPTY {
        false
    } else if !rank_allows_drop(pt, owner, row_of(k)) {
        false
    } else if pt == FU && pawn_in_column(b, col_of(k), owner) {
        false
    } else if pt == FU && in_check(b.update(k, (owner * FU) as i8), (-owner) as i8) {
        proof {
            lemma_empties_fill(b, k, (owner * FU) as i8);
        }
        if mate(b.update(k, (owner * FU) as i8), (-owner) as i8, sh, gh, variant) {
            false
        } else {
            !in_check(b.update(k, (owner * pt) as i8), owner)
        }
    } else {
        !in_check(b.update(k, (owner * pt) as i8), owner)
    }
}

/// Drop squares among the first `k` squares, in row-major order.
pub open spec fn drop_squares_upto(
    b: Seq<i8>,
    pt: i8,
    owner: i8,
    sh: Seq<u8>,
    gh: Seq<u8>,
    variant: GameVariant,
    k: int,
) -> Seq<(usize, usize)>
    decreases empties(b), 1int, k,
{
    if k <= 0 {
        seq![]
    } else {
        drop_squares_upto(b, pt, owner, sh, gh, variant, k - 1) + (if drop_ok(
            b,
            pt,
            owner,
            sh,
            gh,
            variant,
            k - 1,
        ) {
            seq![(row_of(k - 1) as usize, col_of(k - 1) as usize)]
        } else {
            seq![]
        })
    }
}

/// The squares on which `owner` may drop a `pt`, in row-major order.
pub open spec fn drop_squares(
    b: Seq<i8>,
    pt: i8,
    owner: i8,
    sh: Seq<u8>,
    gh: Seq<u8>,
    variant: GameVariant,
) -> Seq<(usize, usize)> {
    drop_squares_upto(b, pt, owner, sh, gh, variant, 81)
}

/// One of the first `n` kinds in `owner`'s hand is held and can be dropped
/// somewhere.
pub open spec fn some_drop(
    b: Seq<i8>,
    owner: i8,
    sh: Seq<u8>,
    gh: Seq<u8>,
    variant: GameVariant,
    n: int,
) -> bool
    decreases empties(b), 2int, n,
{
    if n <= 0 {
        false
    } else {
        some_drop(b, owner, sh, gh, variant, n - 1) || (hand_for(owner, sh, gh)[n - 1] != 0
            && drop_squares_upto(b, hand_kind(n - 1), owner, sh, gh, variant, 81).len() > 0)
    }
}

proof fn lemma_some_drop_mono(
    b: Seq<i8>,
    owner: i8,
    sh: Seq<u8>,
    gh: Seq<u8>,
    variant: GameVariant,
    n: int,
    m: int,
)
    requires
        n <= m,
        some_drop(b, owner, sh, gh, variant, n),
    ensures
        some_drop(b, owner, sh, gh, variant, m),
    decreases m - n,
{
    if n < m {
        lemma_some_drop_mono(b, owner, sh, gh, variant, n, m - 1);
    }
}

/// `owner` has no legal board move and no legal drop.
pub open spec fn mate(b: Seq<i8>, owner: i8, sh: Seq<u8>, gh: Seq<u8>, variant: GameVariant) -> bool
    decreases empties(b), 3int, 0int,
{
    !(exists|k: int, i: int| #[trigger] escape_at(b, owner, k, i)) && !some_drop(
        b,
        owner,
        sh,
        gh,
        variant,
        8,
    )
}

pub fn find_king(board: &Board, owner: i8) -> (k: Option<(usize, usize)>)
    ensures
        k == king_square(board@, owner),
{
    let mut r: usize = 0;
    while r < BOARD_ROWS
        invariant
            0 <= r <= 9,
            king_square(board@, owner) == king_from(board@, owner, sq_index(r as int, 0)),
        decreases 9 - r,
    {
        let mut c: usize = 0;
        while c < BOARD_COLS
            invariant
                0 <= r < 9,
                0 <= c <= 9,
                king_square(board@, owner) == king_from(board@, owner, sq_index(r as int, c as int)),
            decreases 9 - c,
        {
            let p = board_get(board, r, c);
            proof {
                lemma_sq_index(r as int, c as int);
            }
            if piece_owner(p) == owner && abs_piece(p) == OU {
                return Some((r, c));
            }
            c += 1;
        }
        r += 1;
    }
    None
}

pub fn is_in_check(board: &Board, owner: i8) -> (res: bool)
    requires
        owner != i8::MIN,
    ensures
        res == in_check(board@, owner),
{
    let king = match find_king(board, owner) {
        Some(k) => k,
        None => return true,
    };
    let opp = -owner;
    let mut r: usize = 0;
    while r < BOARD_ROWS
        invariant
            0 <= r <= 9,
            opp == -owner,
            king_square(board@, owner) == Some(king),
            forall|k: int| 0 <= k < sq_index(r as int, 0) ==> !#[trigger] checker_at(board@, owner, k),
        decreases 9 - r,
    {
        let mut c: usize = 0;
        while c < BOARD_COLS
            invariant
                0 <= r < 9,
                0 <= c <= 9,
                opp == -owner,
                king_square(board@, owner) == Some(king),
                forall|k: int|
                    0 <= k < sq_index(r as int, c as int) ==> !#[trigger] checker_at(board@, owner, k),
            decreases 9 - c,
        {
            let p = board_get(board, r, c);
            let ghost k = sq_index(r as int, c as int);
            proof {
                lemma_sq_index(r as int, c as int);
            }
            if piece_owner(p) == opp {
                let moves = get_piece_moves(p, r, c, board);
                let mut i: usize = 0;
                while i < moves.len()
                    invariant
                        0 <= i <= moves@.len(),
                        k == sq_index(r as int, c as int),
                        0 <= k < 81,
                        row_of(k) == r && col_of(k) == c,
                        p == board@[k],
                        king_square(board@, owner) == Some(king),
                        opp == -owner,
                        owner_of(p) == opp,
                        moves@ == piece_moves(p, r as int, c as int, board@),
                        forall|j: int| 0 <= j < i ==> moves@[j] != king,
                    decreases moves@.len() - i,
                {
                    let (mr, mc) = moves[i];
                    if mr == king.0 && mc == king.1 {
                        assert(moves@[i as int] == king);
                        assert(moves@.contains(king));
                        assert(owner_of(board@[k]) == -owner);
                        assert(checker_at(board@, owner, k));
                        return true;
                    }
                    i += 1;
                }
                assert(!moves@.contains(king));
                assert(!checker_at(board@, owner, k));
            } else {
                assert(!checker_at(board@, owner, k));
            }
            c += 1;
        }
        r += 1;
    }
    assert forall|k: int| !#[trigger] checker_at(board@, owner, k) by {
        if 0 <= k < 81 {
            assert(k < sq_index(9, 0));
        }
    }
    false
}

pub fn is_legal_move(board: &Board, fr: usize, fc: usize, tr: usize, tc: usize, owner: i8) -> (res:
    bool)
    requires
        sq_index(fr as int, fc as int) < 81,
        sq_index(tr as int, tc as int) < 81,
        owner != i8::MIN,
    ensures
        res == legal_step(board@, fr as int, fc as int, tr as int, tc as int, owner),
{
    let mut nb = *board;
    board_set(&mut nb, tr, tc, board_get(board, fr, fc));
    board_set(&mut nb, fr, fc, EMPTY);
    !is_in_check(&nb, owner)
}

pub fn is_checkmate_position(
    board: &Board,
    owner: i8,
    s_hand: &Hand,
    g_hand: &Hand,
    variant: GameVariant,
) -> (res: bool)
    requires
        owner == SENTE || owner == GOTE,
    ensures
        res == mate(board@, owner, s_hand@, g_hand@, variant),
    decreases empties(board@), 2int,
{
    // Any legal board move?
    let mut r: usize = 0;
    while r < BOARD_ROWS
        invariant
            0 <= r <= 9,
            owner == SENTE || owner == GOTE,
            forall|k: int, i: int|
                0 <= k < sq_index(r as int, 0) ==> !#[trigger] escape_at(board@, owner, k, i),
        decreases 9 - r,
    {
        let mut c: usize = 0;
        while c < BOARD_COLS
            invariant
                0 <= r < 9,
                0 <= c <= 9,
                owner == SENTE || owner == GOTE,
                forall|k: int, i: int|
                    0 <= k < sq_index(r as int, c as int) ==> !#[trigger] escape_at(board@, owner, k, i),
            decreases 9 - c,
        {
            let p = board_get(board, r, c);
            let ghost k = sq_index(r as int, c as int);
            proof {
                lemma_sq_index(r as int, c as int);
            }
            if piece_owner(p) == owner {
                let moves = get_piece_moves(p, r, c, board);
                let mut i: usize = 0;
                while i < moves.len()
                    invariant
                        0 <= i <= moves@.len(),
                        owner == SENTE || owner == GOTE,
                        k == sq_index(r as int, c as int),
                        0 <= k < 81,
                        row_of(k) == r && col_of(k) == c,
                        p == board@[k],
                        owner_of(p) == owner,
                        moves@ == piece_moves(p, r as int, c as int, board@),
                        all_on_board(moves@),
                        forall|j: int| 0 <= j < i ==> !#[trigger] escape_at(board@, owner, k, j),
                    decreases moves@.len() - i,
                {
                    let (mr, mc) = moves[i];
                    assert(0 <= mr < 9 && 0 <= mc < 9) by {
                        assert(moves@[i as int] == (mr, mc));
                    }
                    if is_legal_move(board, r, c, mr, mc, owner) {
                        assert(escape_at(board@, owner, k, i as int));
                        return false;
                    }
                    assert(!escape_at(board@, owner, k, i as int));
                    i += 1;
                }
                assert forall|j: int| !#[trigger] escape_at(board@, owner, k, j) by {
                    if 0 <= j < moves@.len() {
                    }
                }
            } else {
                assert forall|j: int| !#[trigger] escape_at(board@, owner, k, j) by {}
            }
            c += 1;
        }
        r += 1;
    }
    // Any legal drop?
    let hand = if owner == SENTE {
        s_hand
    } else {
        g_hand
    };
    let mut i: usize = 0;
    while i < 8
        invariant
            0 <= i <= 8,
            owner == SENTE || owner == GOTE,
            hand@ == hand_for(owner, s_hand@, g_hand@),
            forall|k: int, j: int| !#[trigger] escape_at(board@, owner, k, j),
            !some_drop(board@, owner, s_hand@, g_hand@, variant, i as int),
        decreases 8 - i,
    {
        if hand[i] != 0 {
            let pt = hand_piece_type(i);
            let drops = get_drop_squares(board, pt, owner, s_hand, g_hand, variant);
            if drops.len() > 0 {
                proof {
                    assert(some_drop(board@, owner, s_hand@, g_hand@, variant, i + 1));
                    lemma_some_drop_mono(board@, owner, s_hand@, g_hand@, variant, i + 1, 8);
                }
                return false;
            }
        }
        i += 1;
    }
    true
}

} // verus!
