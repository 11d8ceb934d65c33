use vstd::prelude::*;

use crate::check::{
    col_of, drop_ok, drop_squares, drop_squares_upto, empties, find_king, hand_for,
    in_check, is_checkmate_position, is_in_check, is_legal_move, king_square,
    lemma_empties_fill, legal_step, pawn_in_column, rank_allows_drop, row_of,
};
use crate::types::{
    abs_piece, board_get, board_set, kind_of, lemma_sq_index, promote_piece, promoted, GameVariant, Hand, GOTE, hand_kind, hand_piece_type, ShogiMove, all_shape_ok, lemma_hand_index_roundtrip, hand_slot, owner_of, piece_owner, sq_index, Board, BOARD_COLS, BOARD_ROWS,
    EMPTY, FU, GI, HI, HM, KA, KE, KI, KO, KY, NG, NIN, NK, NY, OU, RY, SENTE, TO, UM, WK,
};

verus! {

pub open spec fn on_board(r: int, c: int) -> bool {
    0 <= r < 9 && 0 <= c < 9
}

/// Every square of the sequence lies on the board.
pub open spec fn all_on_board(s: Seq<(usize, usize)>) -> bool {
    forall|i: int| 0 <= i < s.len() ==> on_board(#[trigger] s[i].0 as int, s[i].1 as int)
}

/// Value of square `(r, c)` of a board seen as a sequence.
pub open spec fn at(b: Seq<i8>, r: int, c: int) -> i8 {
    b[sq_index(r, c)]
}

/// One step onto `(nr, nc)`: kept when the square is on the board and does
/// not hold a piece of `owner`.
pub open spec fn step_to(b: Seq<i8>, owner: i8, nr: int, nc: int) -> Seq<(usize, usize)> {
    if on_board(nr, nc) && owner_of(at(b, nr, nc)) != owner {
        seq![(nr as usize, nc as usize)]
    } else {
        seq![]
    }
}

/// Squares reached sliding from `(nr, nc)` onwards in direction `(dr, dc)`,
/// at most `n` of them: the slide stops at the board's edge, before a piece
/// of `owner`, and on the first square holding an opponent's piece.
pub open spec fn slide(
    b: Seq<i8>,
    owner: i8,
    nr: int,
    nc: int,
    dr: int,
    dc: int,
    n: nat,
) -> Seq<(usize, usize)>
    decreases n,
{
    if n == 0 || !on_board(nr, nc) || owner_of(at(b, nr, nc)) == owner {
        seq![]
    } else if at(b, nr, nc) != EMPTY {
        seq![(nr as usize, nc as usize)]
    } else {
        seq![(nr as usize, nc as usize)] + slide(b, owner, nr + dr, nc + dc, dr, dc, (n - 1) as nat)
    }
}

/// A ranging move from `(r, c)` in direction `(dr, dc)` (no length limit on
/// a 9x9 board).
pub open spec fn line(b: Seq<i8>, owner: i8, r: int, c: int, dr: int, dc: int) -> Seq<
    (usize, usize),
> {
    slide(b, owner, r + dr, c + dc, dr, dc, 9)
}

/// Up to three squares from `(r, c)` in direction `(dr, dc)`.
pub open spec fn reach3(b: Seq<i8>, owner: i8, r: int, c: int, dr: int, dc: int) -> Seq<
    (usize, usize),
> {
    slide(b, owner, r + dr, c + dc, dr, dc, 3)
}

/// The eight one-square neighbours, in the order rows -1, 0, +1 and within a
/// row columns -1, 0, +1.
pub open spec fn king_steps(b: Seq<i8>, owner: i8, r: int, c: int) -> Seq<(usize, usize)> {
    step_to(b, owner, r - 1, c - 1) + step_to(b, owner, r - 1, c) + step_to(b, owner, r - 1, c + 1)
        + step_to(b, owner, r, c - 1) + step_to(b, owner, r, c + 1) + step_to(
        b,
        owner,
        r + 1,
        c - 1,
    ) + step_to(b, owner, r + 1, c) + step_to(b, owner, r + 1, c + 1)
}

pub open spec fn bishop_lines(b: Seq<i8>, owner: i8, r: int, c: int) -> Seq<(usize, usize)> {
    line(b, owner, r, c, -1, -1) + line(b, owner, r, c, -1, 1) + line(b, owner, r, c, 1, -1)
        + line(b, owner, r, c, 1, 1)
}

pub open spec fn rook_lines(b: Seq<i8>, owner: i8, r: int, c: int) -> Seq<(usize, usize)> {
    line(b, owner, r, c, -1, 0) + line(b, owner, r, c, 1, 0) + line(b, owner, r, c, 0, -1)
        + line(b, owner, r, c, 0, 1)
}

pub open spec fn gold_steps(b: Seq<i8>, owner: i8, r: int, c: int, d: int) -> Seq<
    (usize, usize),
> {
    step_to(b, owner, r + d, c - 1) + step_to(b, owner, r + d, c) + step_to(b, owner, r + d, c + 1)
        + step_to(b, owner, r, c - 1) + step_to(b, owner, r, c + 1) + step_to(b, owner, r - d, c)
}

pub open spec fn ko_reach(b: Seq<i8>, owner: i8, r: int, c: int) -> Seq<(usize, usize)> {
    reach3(b, owner, r, c, -1, -1) + reach3(b, owner, r, c, -1, 0) + reach3(b, owner, r, c, -1, 1)
        + reach3(b, owner, r, c, 0, -1) + reach3(b, owner, r, c, 0, 1) + reach3(
        b,
        owner,
        r,
        c,
        1,
        -1,
    ) + reach3(b, owner, r, c, 1, 0) + reach3(b, owner, r, c, 1, 1)
}

/// Forward direction (row delta) of a player: sente moves up the board.
pub open spec fn forward(owner: i8) -> int {
    if owner == SENTE {
        -1
    } else {
        1
    }
}

/// Pseudo-legal destination squares of `piece` standing on `(r, c)`, in the
/// order in which they are generated.
pub open spec fn piece_moves(piece: i8, r: int, c: int, b: Seq<i8>) -> Seq<(usize, usize)> {
    let a = kind_of(piece);
    let owner = owner_of(piece);
    let d = forward(owner);
    if a == FU {
        step_to(b, owner, r + d, c)
    } else if a == KY {
        line(b, owner, r, c, d, 0)
    } else if a == KE {
        step_to(b, owner, r + 2 * d, c - 1) + step_to(b, owner, r + 2 * d, c + 1)
    } else if a == GI {
        step_to(b, owner, r + d, c - 1) + step_to(b, owner, r + d, c) + step_to(
            b,
            owner,
            r + d,
            c + 1,
        ) + step_to(b, owner, r - d, c - 1) + step_to(b, owner, r - d, c + 1)
    } else if a == KI || a == TO || a == NY || a == NK || a == NG {
        gold_steps(b, owner, r, c, d)
    } else if a == KA {
        bishop_lines(b, owner, r, c)
    } else if a == HI {
        rook_lines(b, owner, r, c)
    } else if a == UM {
        bishop_lines(b, owner, r, c) + step_to(b, owner, r - 1, c) + step_to(b, owner, r + 1, c)
            + step_to(b, owner, r, c - 1) + step_to(b, owner, r, c + 1)
    } else if a == RY {
        rook_lines(b, owner, r, c) + step_to(b, owner, r - 1, c - 1) + step_to(
            b,
            owner,
            r - 1,
            c + 1,
        ) + step_to(b, owner, r + 1, c - 1) + step_to(b, owner, r + 1, c + 1)
    } else if a == KO {
        ko_reach(b, owner, r, c)
    } else if a == WK {
        bishop_lines(b, owner, r, c) + rook_lines(b, owner, r, c)
    } else if a == OU || a == HM {
        king_steps(b, owner, r, c)
    } else {
        seq![]
    }
}

fn add_step(moves: &mut Vec<(usize, usize)>, board: &Board, owner: i8, nr: i32, nc: i32)
    requires
        all_on_board(old(moves)@),
    ensures
        all_on_board(final(moves)@),
        final(moves)@ == old(moves)@ + step_to(board@, owner, nr as int, nc as int),
{
    if nr < 0 || nr >= BOARD_ROWS as i32 || nc < 0 || nc >= BOARD_COLS as i32 {
        assert(step_to(board@, owner, nr as int, nc as int) =~= seq![]);
        return ;
    }
    let target = board_get(board, nr as usize, nc as usize);
    if piece_owner(target) == owner {
        assert(step_to(board@, owner, nr as int, nc as int) =~= seq![]);
        return ;
    }
    moves.push((nr as usize, nc as usize));
}

fn add_line(
    moves: &mut Vec<(usize, usize)>,
    board: &Board,
    owner: i8,
    r: i32,
    c: i32,
    dr: i32,
    dc: i32,
)
    requires
        all_on_board(old(moves)@),
        -1 <= dr <= 1,
        -1 <= dc <= 1,
        dr != 0 || dc != 0,
        -1 <= r + dr,
        -1 <= c + dc,
        r + dr <= i32::MAX - 2,
        c + dc <= i32::MAX - 2,
    ensures
        all_on_board(final(moves)@),
        final(moves)@ == old(moves)@ + line(board@, owner, r as int, c as int, dr as int, dc as int),
{
    let mut nr = r + dr;
    let mut nc = c + dc;
    let ghost mut j: int = 0;
    while nr >= 0 && nr < BOARD_ROWS as i32 && nc >= 0 && nc < BOARD_COLS as i32
        invariant
            all_on_board(moves@),
            -1 <= dr <= 1,
            -1 <= dc <= 1,
            dr != 0 || dc != 0,
            0 <= j <= 9,
            -1 <= nr <= i32::MAX - 2,
            -1 <= nc <= i32::MAX - 2,
            j > 0 ==> (dr == 1 ==> nr >= j) && (dr == -1 ==> nr <= 8 - j) && (dc == 1 ==> nc >= j)
                && (dc == -1 ==> nc <= 8 - j),
            old(moves)@ + line(board@, owner, r as int, c as int, dr as int, dc as int) == moves@
                + slide(board@, owner, nr as int, nc as int, dr as int, dc as int, (9 - j) as nat),
        decreases 9 - j,
    {
        assert(j < 9);
        let target = board_get(board, nr as usize, nc as usize);
        if piece_owner(target) == owner {
            assert(slide(board@, owner, nr as int, nc as int, dr as int, dc as int, (9 - j) as nat)
                =~= seq![]);
            return ;
        }
        let ghost before = moves@;
        moves.push((nr as usize, nc as usize));
        if target != EMPTY {
            assert(slide(board@, owner, nr as int, nc as int, dr as int, dc as int, (9 - j) as nat)
                =~= seq![(nr as usize, nc as usize)]);
            assert(moves@ =~= before + seq![(nr as usize, nc as usize)]);
            return ;
        }
        assert(before + slide(board@, owner, nr as int, nc as int, dr as int, dc as int, (9 - j) as nat)
            =~= moves@ + slide(
            board@,
            owner,
            nr + dr,
            nc + dc,
            dr as int,
            dc as int,
            (9 - j - 1) as nat,
        ));
        nr += dr;
        nc += dc;
        proof {
            j = j + 1;
        }
    }
    assert(slide(board@, owner, nr as int, nc as int, dr as int, dc as int, (9 - j) as nat) =~= seq![]);
}

/// Adds the squares reached going up to three steps in direction `(dr, dc)`.
fn add_reach3(
    moves: &mut Vec<(usize, usize)>,
    board: &Board,
    owner: i8,
    r: i32,
    c: i32,
    dr: i32,
    dc: i32,
)
    requires
        all_on_board(old(moves)@),
        -1 <= dr <= 1,
        -1 <= dc <= 1,
        r <= i32::MAX - 3,
        c <= i32::MAX - 3,
        r >= 0,
        c >= 0,
    ensures
        all_on_board(final(moves)@),
        final(moves)@ == old(moves)@ + reach3(board@, owner, r as int, c as int, dr as int, dc as int),
{
    let mut step: i32 = 1;
    while step <= 3
        invariant
            all_on_board(moves@),
            -1 <= dr <= 1,
            -1 <= dc <= 1,
            r <= i32::MAX - 3,
            c <= i32::MAX - 3,
            r >= 0,
            c >= 0,
            1 <= step <= 4,
            old(moves)@ + reach3(board@, owner, r as int, c as int, dr as int, dc as int) == moves@
                + slide(
                board@,
                owner,
                r + dr * step,
                c + dc * step,
                dr as int,
                dc as int,
                (4 - step) as nat,
            ),
        decreases 4 - step,
    {
        assert(-3 <= dr * step <= 3 && -3 <= dc * step <= 3) by (nonlinear_arith)
            requires
                -1 <= dr <= 1,
                -1 <= dc <= 1,
                1 <= step <= 3,
        ;
        let nr = r + dr * step;
        let nc = c + dc * step;
        let ghost n: nat = (4 - step) as nat;
        if nr < 0 || nr >= BOARD_ROWS as i32 || nc < 0 || nc >= BOARD_COLS as i32 {
            assert(slide(board@, owner, nr as int, nc as int, dr as int, dc as int, n) =~= seq![]);
            return ;
        }
        let target = board_get(board, nr as usize, nc as usize);
        if piece_owner(target) == owner {
            assert(slide(board@, owner, nr as int, nc as int, dr as int, dc as int, n) =~= seq![]);
            return ;
        }
        let ghost before = moves@;
        moves.push((nr as usize, nc as usize));
        if target != EMPTY {
            assert(slide(board@, owner, nr as int, nc as int, dr as int, dc as int, n) =~= seq![
                (nr as usize, nc as usize),
            ]);
            assert(moves@ =~= before + seq![(nr as usize, nc as usize)]);
            return ;
        }
        assert(r + dr * (step + 1) == nr + dr && c + dc * (step + 1) == nc + dc) by (nonlinear_arith)
            requires
                nr == r + dr * step,
                nc == c + dc * step,
        ;
        assert(before + slide(board@, owner, nr as int, nc as int, dr as int, dc as int, n) =~= moves@
            + slide(board@, owner, nr + dr, nc + dc, dr as int, dc as int, (n - 1) as nat));
        step += 1;
    }
    assert(slide(
        board@,
        owner,
        r + dr * step,
        c + dc * step,
        dr as int,
        dc as int,
        (4 - step) as nat,
    ) =~= seq![]);
}

/// The piece kinds that move: every kind but NIN (and codes of no kind).
pub open spec fn has_moves(a: i8) -> bool {
    a == FU || a == KY || a == KE || a == GI || a == KI || a == TO || a == NY || a == NK || a == NG
        || a == KA || a == HI || a == UM || a == RY || a == KO || a == WK || a == OU || a == HM
}

#[verifier::spinoff_prover]
#[verifier::rlimit(40)]
/// Pseudo-legal destination squares for `piece` standing on `(r, c)`. Whether
/// the move leaves the mover's king in check is not considered here.
pub fn get_piece_moves(piece: i8, r: usize, c: usize, board: &Board) -> (moves: Vec<
    (usize, usize),
>)
    requires
        has_moves(kind_of(piece)) ==> r + 3 <= i32::MAX && c + 3 <= i32::MAX,
    ensures
        moves@ == piece_moves(piece, r as int, c as int, board@),
        all_on_board(moves@),
{
    let mut moves: Vec<(usize, usize)> = Vec::new();
    let a = abs_piece(piece);
    let owner = piece_owner(piece);
    let dir: i32 = if owner == SENTE {
        -1
    } else {
        1
    };
    let ri = r as i32;
    let ci = c as i32;
    match a {
        FU => {
            add_step(&mut moves, board, owner, ri + dir, ci);
        },
        KY => {
            add_line(&mut moves, board, owner, ri, ci, dir, 0);
        },
        KE => {
            add_step(&mut moves, board, owner, ri + 2 * dir, ci - 1);
            add_step(&mut moves, board, owner, ri + 2 * dir, ci + 1);
        },
        GI => {
            add_step(&mut moves, board, owner, ri + dir, ci - 1);
            add_step(&mut moves, board, owner, ri + dir, ci);
            add_step(&mut moves, board, owner, ri + dir, ci + 1);
            add_step(&mut moves, board, owner, ri - dir, ci - 1);
            add_step(&mut moves, board, owner, ri - dir, ci + 1);
        },
        KI | TO | NY | NK | NG => {
            add_step(&mut moves, board, owner, ri + dir, ci - 1);
            add_step(&mut moves, board, owner, ri + dir, ci);
            add_step(&mut moves, board, owner, ri + dir, ci + 1);
            add_step(&mut moves, board, owner, ri, ci - 1);
            add_step(&mut moves, board, owner, ri, ci + 1);
            add_step(&mut moves, board, owner, ri - dir, ci);
        },
        KA => {
            add_line(&mut moves, board, owner, ri, ci, -1, -1);
            add_line(&mut moves, board, owner, ri, ci, -1, 1);
            add_line(&mut moves, board, owner, ri, ci, 1, -1);
            add_line(&mut moves, board, owner, ri, ci, 1, 1);
        },
        HI => {
            add_line(&mut moves, board, owner, ri, ci, -1, 0);
            add_line(&mut moves, board, owner, ri, ci, 1, 0);
            add_line(&mut moves, board, owner, ri, ci, 0, -1);
            add_line(&mut moves, board, owner, ri, ci, 0, 1);
        },
        UM => {
            add_line(&mut moves, board, owner, ri, ci, -1, -1);
            add_line(&mut moves, board, owner, ri, ci, -1, 1);
            add_line(&mut moves, board, owner, ri, ci, 1, -1);
            add_line(&mut moves, board, owner, ri, ci, 1, 1);
            add_step(&mut moves, board, owner, ri - 1, ci);
            add_step(&mut moves, board, owner, ri + 1, ci);
            add_step(&mut moves, board, owner, ri, ci - 1);
            add_step(&mut moves, board, owner, ri, ci + 1);
        },
        RY => {
            add_line(&mut moves, board, owner, ri, ci, -1, 0);
            add_line(&mut moves, board, owner, ri, ci, 1, 0);
            add_line(&mut moves, board, owner, ri, ci, 0, -1);
            add_line(&mut moves, board, owner, ri, ci, 0, 1);
            add_step(&mut moves, board, owner, ri - 1, ci - 1);
            add_step(&mut moves, board, owner, ri - 1, ci + 1);
            add_step(&mut moves, board, owner, ri + 1, ci - 1);
            add_step(&mut moves, board, owner, ri + 1, ci + 1);
        },
        KO => {
            // Eight directions, up to three squares each, no jumping.
            add_reach3(&mut moves, board, owner, ri, ci, -1, -1);
            add_reach3(&mut moves, board, owner, ri, ci, -1, 0);
            add_reach3(&mut moves, board, owner, ri, ci, -1, 1);
            add_reach3(&mut moves, board, owner, ri, ci, 0, -1);
            add_reach3(&mut moves, board, owner, ri, ci, 0, 1);
            add_reach3(&mut moves, board, owner, ri, ci, 1, -1);
            add_reach3(&mut moves, board, owner, ri, ci, 1, 0);
            add_reach3(&mut moves, board, owner, ri, ci, 1, 1);
        },
        WK => {
            // Moves as bishop and rook together.
            add_line(&mut moves, board, owner, ri, ci, -1, -1);
            add_line(&mut moves, board, owner, ri, ci, -1, 1);
            add_line(&mut moves, board, owner, ri, ci, 1, -1);
            add_line(&mut moves, board, owner, ri, ci, 1, 1);
            add_line(&mut moves, board, owner, ri, ci, -1, 0);
            add_line(&mut moves, board, owner, ri, ci, 1, 0);
            add_line(&mut moves, board, owner, ri, ci, 0, -1);
            add_line(&mut moves, board, owner, ri, ci, 0, 1);
        },
        NIN => {
            // Cannot move.
        },
        OU | HM => {
            // One square in each of the eight directions.
            add_step(&mut moves, board, owner, ri - 1, ci - 1);
            add_step(&mut moves, board, owner, ri - 1, ci);
            add_step(&mut moves, board, owner, ri - 1, ci + 1);
            add_step(&mut moves, board, owner, ri, ci - 1);
            add_step(&mut moves, board, owner, ri, ci + 1);
            add_step(&mut moves, board, owner, ri + 1, ci - 1);
            add_step(&mut moves, board, owner, ri + 1, ci);
            add_step(&mut moves, board, owner, ri + 1, ci + 1);
        },
        _ => {},
    }
    assert(moves@ =~= piece_moves(piece, r as int, c as int, board@));
    moves
}


/// The piece must promote on arriving at row `tr`: pawns and lances on the
/// last rank, knights on the last two ranks.
pub open spec fn promotion_forced(piece: i8, tr: int) -> bool {
    let a = kind_of(piece);
    if owner_of(piece) == SENTE {
        ((a == FU || a == KY) && tr == 0) || (a == KE && tr <= 1)
    } else {
        ((a == FU || a == KY) && tr == 8) || (a == KE && tr >= 7)
    }
}

pub fn must_promote(piece: i8, tr: usize) -> (res: bool)
    ensures
        res == promotion_forced(piece, tr as int),
{
    let a = abs_piece(piece);
    let owner = piece_owner(piece);
    if owner == SENTE {
        if a == FU || a == KY {
            return tr == 0;
        }
        if a == KE {
            return tr <= 1;
        }
    } else {
        if a == FU || a == KY {
            return tr == 8;
        }
        if a == KE {
            return tr >= 7;
        }
    }
    false
}

/// The piece can promote and the move starts or ends in the promotion zone
/// (the three farthest ranks).
pub open spec fn promotion_offered(piece: i8, fr: int, tr: int) -> bool {
    promoted(kind_of(piece)) is Some && (if owner_of(piece) == SENTE {
        fr <= 2 || tr <= 2
    } else {
        fr >= 6 || tr >= 6
    })
}

pub fn should_ask_promote(piece: i8, fr: usize, tr: usize) -> (res: bool)
    ensures
        res == promotion_offered(piece, fr as int, tr as int),
{
    if promote_piece(abs_piece(piece)).is_none() {
        return false;
    }
    let owner = piece_owner(piece);
    if owner == SENTE {
        return fr <= 2 || tr <= 2;
    }
    fr >= 6 || tr >= 6
}

pub fn has_nifu(board: &Board, col: usize, owner: i8) -> (res: bool)
    requires
        col < 9,
    ensures
        res == pawn_in_column(board@, col as int, owner),
{
    let mut r: usize = 0;
    while r < BOARD_ROWS
        invariant
            0 <= r <= 9,
            col < 9,
            forall|r2: int| 0 <= r2 < r ==> #[trigger] board@[sq_index(r2, col as int)] != owner * FU,
        decreases 9 - r,
    {
        if board_get(board, r, col) == owner * FU {
            return true;
        }
        r += 1;
    }
    false
}

/// Whether `owner` may drop a `piece_type` on the square `(r, c)`.
fn drop_allowed(
    board: &Board,
    r: usize,
    c: usize,
    piece_type: i8,
    owner: i8,
    s_hand: &Hand,
    g_hand: &Hand,
    variant: GameVariant,
) -> (res: bool)
    requires
        owner == SENTE || owner == GOTE,
        !(owner == GOTE && piece_type == i8::MIN),
        r < 9,
        c < 9,
    ensures
        res == drop_ok(
            board@,
            piece_type,
            owner,
            s_hand@,
            g_hand@,
            variant,
            sq_index(r as int, c as int),
        ),
    decreases empties(board@), 0int,
{
    let ghost k = sq_index(r as int, c as int);
    proof {
        lemma_sq_index(r as int, c as int);
    }
    if board_get(board, r, c) != EMPTY {
        return false;
    }
    if owner == SENTE {
        if (piece_type == FU || piece_type == KY) && r == 0 {
            return false;
        }
        if piece_type == KE && r <= 1 {
            return false;
        }
    } else {
        if (piece_type == FU || piece_type == KY) && r == 8 {
            return false;
        }
        if piece_type == KE && r >= 7 {
            return false;
        }
    }
    assert(rank_allows_drop(piece_type, owner, r as int));
    if piece_type == FU && has_nifu(board, c, owner) {
        return false;
    }
    // A pawn drop may not give checkmate.
    if piece_type == FU {
        let mut nb = *board;
        board_set(&mut nb, r, c, owner * FU);
        if is_in_check(&nb, -owner) {
            proof {
                lemma_empties_fill(board@, k, (owner * FU) as i8);
            }
            if is_checkmate_position(&nb, -owner, s_hand, g_hand, variant) {
                return false;
            }
        }
    }
    // The drop must not leave the own king in check.
    let mut nb = *board;
    board_set(&mut nb, r, c, owner * piece_type);
    !is_in_check(&nb, owner)
}

pub fn get_drop_squares(
    board: &Board,
    piece_type: i8,
    owner: i8,
    s_hand: &Hand,
    g_hand: &Hand,
    variant: GameVariant,
) -> (squares: Vec<(usize, usize)>)
    requires
        owner == SENTE || owner == GOTE,
        !(owner == GOTE && piece_type == i8::MIN),
    ensures
        squares@ == drop_squares(board@, piece_type, owner, s_hand@, g_hand@, variant),
        all_on_board(squares@),
    decreases empties(board@), 1int,
{
    let mut squares: Vec<(usize, usize)> = Vec::new();
    let mut r: usize = 0;
    while r < BOARD_ROWS
        invariant
            0 <= r <= 9,
            owner == SENTE || owner == GOTE,
            !(owner == GOTE && piece_type == i8::MIN),
            all_on_board(squares@),
            squares@ == drop_squares_upto(
                board@,
                piece_type,
                owner,
                s_hand@,
                g_hand@,
                variant,
                sq_index(r as int, 0),
            ),
        decreases 9 - r,
    {
        let mut c: usize = 0;
        while c < BOARD_COLS
            invariant
                0 <= r < 9,
                0 <= c <= 9,
                owner == SENTE || owner == GOTE,
                !(owner == GOTE && piece_type == i8::MIN),
                all_on_board(squares@),
                squares@ == drop_squares_upto(
                    board@,
                    piece_type,
                    owner,
                    s_hand@,
                    g_hand@,
                    variant,
                    sq_index(r as int, c as int),
                ),
            decreases 9 - c,
        {
            proof {
                lemma_sq_index(r as int, c as int);
            }
            if drop_allowed(board, r, c, piece_type, owner, s_hand, g_hand, variant) {
                squares.push((r, c));
            }
            c += 1;
        }
        r += 1;
    }
    squares
}

/// Ouke variant: `owner`'s gold on `(r, c)` stands next to (or on) their king.
pub open spec fn nin_promotable(b: Seq<i8>, r: int, c: int, owner: i8) -> bool {
    let p = at(b, r, c);
    kind_of(p) == KI && owner_of(p) == owner && match king_square(b, owner) {
        Some(ks) => -1 <= r - ks.0 <= 1 && -1 <= c - ks.1 <= 1,
        None => false,
    }
}

pub fn can_promote_to_nin(board: &Board, r: usize, c: usize, owner: i8) -> (res: bool)
    requires
        sq_index(r as int, c as int) < 81,
    ensures
        res == nin_promotable(board@, r as int, c as int, owner),
{
    let piece = board_get(board, r, c);
    if abs_piece(piece) != KI || piece_owner(piece) != owner {
        return false;
    }
    let king_pos = find_king(board, owner);
    match king_pos {
        Some((kr, kc)) => {
            let dr = if r >= kr {
                r - kr
            } else {
                kr - r
            };
            let dc = if c >= kc {
                c - kc
            } else {
                kc - c
            };
            dr <= 1 && dc <= 1
        },
        None => false,
    }
}


/// The moves generated for a legal step of `piece` from `(r, c)` to `t`: both
/// the promoting and the plain move where promotion is optional, only the
/// promoting one where it is forced, else only the plain one.
pub open spec fn step_variants(piece: i8, r: int, c: int, t: (usize, usize)) -> Seq<ShogiMove> {
    let promote = promotion_offered(piece, r, t.0 as int) && promoted(kind_of(piece)) is Some;
    let must = promotion_forced(piece, t.0 as int);
    if promote && !must {
        seq![
            ShogiMove::board_move(r as u8, c as u8, t.0 as u8, t.1 as u8, true),
            ShogiMove::board_move(r as u8, c as u8, t.0 as u8, t.1 as u8, false),
        ]
    } else if must {
        seq![ShogiMove::board_move(r as u8, c as u8, t.0 as u8, t.1 as u8, true)]
    } else {
        seq![ShogiMove::board_move(r as u8, c as u8, t.0 as u8, t.1 as u8, false)]
    }
}

/// Moves of `piece` from `(r, c)` to those of the targets `ts` that do not
/// leave `owner` in check, in the order of `ts`.
pub open spec fn target_moves(
    b: Seq<i8>,
    piece: i8,
    r: int,
    c: int,
    owner: i8,
    ts: Seq<(usize, usize)>,
) -> Seq<ShogiMove>
    decreases ts.len(),
{
    if ts.len() == 0 {
        seq![]
    } else {
        target_moves(b, piece, r, c, owner, ts.drop_last()) + (if legal_step(
            b,
            r,
            c,
            ts.last().0 as int,
            ts.last().1 as int,
            owner,
        ) {
            step_variants(piece, r, c, ts.last())
        } else {
            seq![]
        })
    }
}

/// Legal board moves of `owner`'s piece on square `k` (none for an ouke
/// NIN, which cannot move).
pub open spec fn square_moves(b: Seq<i8>, owner: i8, variant: GameVariant, k: int) -> Seq<
    ShogiMove,
> {
    let p = b[k];
    if owner_of(p) != owner || (variant == GameVariant::Ouke && kind_of(p) == NIN) {
        seq![]
    } else {
        target_moves(b, p, row_of(k), col_of(k), owner, piece_moves(p, row_of(k), col_of(k), b))
    }
}

/// Legal board moves from the first `k` squares, in row-major order.
pub open spec fn board_moves(b: Seq<i8>, owner: i8, variant: GameVariant, k: int) -> Seq<
    ShogiMove,
>
    decreases k,
{
    if k <= 0 {
        seq![]
    } else {
        board_moves(b, owner, variant, k - 1) + square_moves(b, owner, variant, k - 1)
    }
}

pub open spec fn drops_of(pt: i8, sqs: Seq<(usize, usize)>) -> Seq<ShogiMove> {
    sqs.map_values(|s: (usize, usize)| ShogiMove::drop_move(pt, s.0 as u8, s.1 as u8))
}

/// Legal drops of the first `n` kinds of `owner`'s hand that are held.
pub open spec fn drop_moves(
    b: Seq<i8>,
    owner: i8,
    sh: Seq<u8>,
    gh: Seq<u8>,
    variant: GameVariant,
    n: int,
) -> Seq<ShogiMove>
    decreases n,
{
    if n <= 0 {
        seq![]
    } else {
        drop_moves(b, owner, sh, gh, variant, n - 1) + (if hand_for(owner, sh, gh)[n - 1] != 0 {
            drops_of(hand_kind(n - 1), drop_squares(b, hand_kind(n - 1), owner, sh, gh, variant))
        } else {
            seq![]
        })
    }
}

/// Ouke: gold-to-NIN promotions among the first `k` squares.
pub open spec fn nin_moves(b: Seq<i8>, owner: i8, k: int) -> Seq<ShogiMove>
    decreases k,
{
    if k <= 0 {
        seq![]
    } else {
        nin_moves(b, owner, k - 1) + (if owner_of(b[k - 1]) == owner && kind_of(b[k - 1]) == KI
            && nin_promotable(b, row_of(k - 1), col_of(k - 1), owner) {
            seq![ShogiMove::promote_nin_move(row_of(k - 1) as u8, col_of(k - 1) as u8)]
        } else {
            seq![]
        })
    }
}

/// Ouke: NIN-to-gold reversions among the first `k` squares.
pub open spec fn abort_moves(b: Seq<i8>, owner: i8, k: int) -> Seq<ShogiMove>
    decreases k,
{
    if k <= 0 {
        seq![]
    } else {
        abort_moves(b, owner, k - 1) + (if owner_of(b[k - 1]) == owner && kind_of(b[k - 1]) == NIN {
            seq![ShogiMove::abort_nin_move(row_of(k - 1) as u8, col_of(k - 1) as u8)]
        } else {
            seq![]
        })
    }
}

/// All legal moves of `owner`: board moves in row-major order of the moving
/// piece, then drops by hand kind, then (ouke, when not in check) NIN
/// promotions and NIN reversions.
pub open spec fn legal_moves(
    b: Seq<i8>,
    owner: i8,
    sh: Seq<u8>,
    gh: Seq<u8>,
    variant: GameVariant,
) -> Seq<ShogiMove> {
    board_moves(b, owner, variant, 81) + drop_moves(b, owner, sh, gh, variant, 8) + (if variant
        == GameVariant::Ouke && !in_check(b, owner) {
        nin_moves(b, owner, 81) + abort_moves(b, owner, 81)
    } else {
        seq![]
    })
}

/// Appends the moves for the targets of the piece on `(r, c)`.
fn push_piece_moves(
    moves: &mut Vec<ShogiMove>,
    board: &Board,
    piece: i8,
    r: usize,
    c: usize,
    owner: i8,
)
    requires
        r < 9,
        c < 9,
        owner == SENTE || owner == GOTE,
        all_shape_ok(old(moves)@),
    ensures
        all_shape_ok(final(moves)@),
        final(moves)@ == old(moves)@ + target_moves(
            board@,
            piece,
            r as int,
            c as int,
            owner,
            piece_moves(piece, r as int, c as int, board@),
        ),
{
    let targets = get_piece_moves(piece, r, c, board);
    let can_prom = promote_piece(abs_piece(piece)).is_some();
    let ghost base = moves@;
    let mut i: usize = 0;
    while i < targets.len()
        invariant
            0 <= i <= targets@.len(),
            r < 9,
            c < 9,
            owner == SENTE || owner == GOTE,
            can_prom == promoted(kind_of(piece)) is Some,
            targets@ == piece_moves(piece, r as int, c as int, board@),
            all_on_board(targets@),
            all_shape_ok(moves@),
            moves@ == base + target_moves(board@, piece, r as int, c as int, owner, targets@.take(i as int)),
        decreases targets@.len() - i,
    {
        let (tr, tc) = targets[i];
        assert(targets@.take(i as int + 1).drop_last() =~= targets@.take(i as int));
        assert(targets@.take(i as int + 1).last() == (tr, tc));
        assert(0 <= tr < 9 && 0 <= tc < 9) by {
            assert(targets@[i as int] == (tr, tc));
        }
        let ghost before = moves@;
        if is_legal_move(board, r, c, tr, tc, owner) {
            let promote = should_ask_promote(piece, r, tr) && can_prom;
            let must = must_promote(piece, tr);
            if promote && !must {
                moves.push(ShogiMove::new_move(r as u8, c as u8, tr as u8, tc as u8, true));
                moves.push(ShogiMove::new_move(r as u8, c as u8, tr as u8, tc as u8, false));
            } else if must {
                moves.push(ShogiMove::new_move(r as u8, c as u8, tr as u8, tc as u8, true));
            } else {
                moves.push(ShogiMove::new_move(r as u8, c as u8, tr as u8, tc as u8, false));
            }
            assert(moves@ =~= before + step_variants(piece, r as int, c as int, (tr, tc)));
        }
        assert(moves@ =~= base + target_moves(
            board@,
            piece,
            r as int,
            c as int,
            owner,
            targets@.take(i as int + 1),
        ));
        i += 1;
    }
    assert(targets@.take(targets@.len() as int) =~= targets@);
}

/// Appends a drop of `pt` onto each of `squares`.
fn push_drop_moves(moves: &mut Vec<ShogiMove>, pt: i8, squares: &Vec<(usize, usize)>)
    requires
        all_on_board(squares@),
        hand_slot(pt) is Some,
        all_shape_ok(old(moves)@),
    ensures
        all_shape_ok(final(moves)@),
        final(moves)@ == old(moves)@ + drops_of(pt, squares@),
{
    let ghost before = moves@;
    let mut j: usize = 0;
    while j < squares.len()
        invariant
            0 <= j <= squares@.len(),
            all_on_board(squares@),
            all_shape_ok(moves@),
            hand_slot(pt) is Some,
            moves@ == before + drops_of(pt, squares@.take(j as int)),
        decreases squares@.len() - j,
    {
        let (sr, sc) = squares[j];
        assert(squares@[j as int] == (sr, sc));
        moves.push(ShogiMove::new_drop(pt, sr as u8, sc as u8));
        assert(drops_of(pt, squares@.take(j as int + 1)) =~= drops_of(
            pt,
            squares@.take(j as int),
        ).push(ShogiMove::drop_move(pt, sr as u8, sc as u8)));
        j += 1;
    }
    assert(squares@.take(squares@.len() as int) =~= squares@);
}

pub fn get_all_legal_moves(
    board: &Board,
    owner: i8,
    s_hand: &Hand,
    g_hand: &Hand,
    variant: GameVariant,
) -> (moves: Vec<ShogiMove>)
    requires
        owner == SENTE || owner == GOTE,
    ensures
        moves@ == legal_moves(board@, owner, s_hand@, g_hand@, variant),
        all_shape_ok(moves@),
{
    let mut moves: Vec<ShogiMove> = Vec::with_capacity(128);
    let hand = if owner == SENTE {
        s_hand
    } else {
        g_hand
    };
    // Board moves
    let mut r: usize = 0;
    while r < BOARD_ROWS
        invariant
            0 <= r <= 9,
            owner == SENTE || owner == GOTE,
            all_shape_ok(moves@),
            moves@ == board_moves(board@, owner, variant, sq_index(r as int, 0)),
        decreases 9 - r,
    {
        let mut c: usize = 0;
        while c < BOARD_COLS
            invariant
                0 <= r < 9,
                0 <= c <= 9,
                owner == SENTE || owner == GOTE,
                all_shape_ok(moves@),
                moves@ == board_moves(board@, owner, variant, sq_index(r as int, c as int)),
            decreases 9 - c,
        {
            proof {
                lemma_sq_index(r as int, c as int);
            }
            let piece = board_get(board, r, c);
            // Ouke: NIN is immobile.
            if piece_owner(piece) == owner && !(variant == GameVariant::Ouke && abs_piece(piece)
                == NIN) {
                push_piece_moves(&mut moves, board, piece, r, c, owner);
            }
            c += 1;
        }
        r += 1;
    }
    let ghost after_board = moves@;
    // Drop moves
    let mut i: usize = 0;
    while i < 8
        invariant
            0 <= i <= 8,
            owner == SENTE || owner == GOTE,
            hand@ == hand_for(owner, s_hand@, g_hand@),
            after_board == board_moves(board@, owner, variant, 81),
            all_shape_ok(moves@),
            moves@ == after_board + drop_moves(board@, owner, s_hand@, g_hand@, variant, i as int),
        decreases 8 - i,
    {
        if hand[i] != 0 {
            let pt = hand_piece_type(i);
            proof {
                lemma_hand_index_roundtrip(pt, i as int);
            }
            let squares = get_drop_squares(board, pt, owner, s_hand, g_hand, variant);
            push_drop_moves(&mut moves, pt, &squares);
        }
        i += 1;
    }
    let ghost after_drops = moves@;
    // Ouke special moves (only when not in check)
    if variant == GameVariant::Ouke && !is_in_check(board, owner) {
        let mut r: usize = 0;
        while r < BOARD_ROWS
            invariant
                0 <= r <= 9,
                all_shape_ok(moves@),
                moves@ == after_drops + nin_moves(board@, owner, sq_index(r as int, 0)),
            decreases 9 - r,
        {
            let mut c: usize = 0;
            while c < BOARD_COLS
                invariant
                    0 <= r < 9,
                    0 <= c <= 9,
                    all_shape_ok(moves@),
                    moves@ == after_drops + nin_moves(board@, owner, sq_index(r as int, c as int)),
                decreases 9 - c,
            {
                proof {
                    lemma_sq_index(r as int, c as int);
                }
                let piece = board_get(board, r, c);
                if piece_owner(piece) == owner && abs_piece(piece) == KI {
                    if can_promote_to_nin(board, r, c, owner) {
                        moves.push(ShogiMove::new_promote_nin(r as u8, c as u8));
                    }
                }
                c += 1;
            }
            r += 1;
        }
        let ghost after_nin = moves@;
        let mut r: usize = 0;
        while r < BOARD_ROWS
            invariant
                0 <= r <= 9,
                all_shape_ok(moves@),
                moves@ == after_nin + abort_moves(board@, owner, sq_index(r as int, 0)),
            decreases 9 - r,
        {
            let mut c: usize = 0;
            while c < BOARD_COLS
                invariant
                    0 <= r < 9,
                    0 <= c <= 9,
                    all_shape_ok(moves@),
                    moves@ == after_nin + abort_moves(board@, owner, sq_index(r as int, c as int)),
                decreases 9 - c,
            {
                proof {
                    lemma_sq_index(r as int, c as int);
                }
                let piece = board_get(board, r, c);
                if piece_owner(piece) == owner && abs_piece(piece) == NIN {
                    moves.push(ShogiMove::new_abort_nin(r as u8, c as u8));
                }
                c += 1;
            }
            r += 1;
        }
    }
    moves
}

} // verus!
