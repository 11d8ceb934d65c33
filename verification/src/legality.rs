//! The move generator produces exactly the legal moves: none leaves the
//! mover's own king in check and none is missed; drops and promotions obey
//! their rules, checkmate is having no move other than an ouke NIN
//! promotion or reversion, and a move keeps the pieces in play.
use vstd::prelude::*;

use crate::apply::{arriving_piece, board_after, capture_slot, move_fits, mover_hand_after};
use crate::check::{
    after_step, checker_at, col_of, drop_ok, empties, drop_squares_upto, escape_at, hand_for, in_check,
    is_king_of, king_from, legal_step, mate, row_of, some_drop,
};
use crate::movegen::{
    abort_moves, at, board_moves, drop_moves, drops_of, line, legal_moves, nin_moves, on_board,
    piece_moves, promotion_forced, promotion_offered, reach3, slide, square_moves, step_to, step_variants, target_moves, forward,
};
use crate::mcts::position_after;
use crate::search::{captures_fit, player};
use crate::types::{
    hand_kind, kind_of, owner_of, promoted, sq_index, Board, GameVariant, Hand, ShogiMove, EMPTY,
    GOTE, KI,
    MOVE_TYPE_ABORT_NIN, MOVE_TYPE_DROP, MOVE_TYPE_MOVE, MOVE_TYPE_PROMOTE_NIN, NIN, OU, SENTE,
};

verus! {

/// Two boards with the same owner on every square (so the same empty
/// squares): pieces move on them alike.
pub open spec fn same_silhouette(b1: Seq<i8>, b2: Seq<i8>) -> bool {
    &&& b1.len() == 81
    &&& b2.len() == 81
    &&& forall|k: int| 0 <= k < 81 ==> owner_of(#[trigger] b1[k]) == owner_of(b2[k])
}

proof fn lemma_slide_same(
    b1: Seq<i8>,
    b2: Seq<i8>,
    owner: i8,
    nr: int,
    nc: int,
    dr: int,
    dc: int,
    n: nat,
)
    requires
        same_silhouette(b1, b2),
    ensures
        slide(b1, owner, nr, nc, dr, dc, n) == slide(b2, owner, nr, nc, dr, dc, n),
    decreases n,
{
    if n > 0 && on_board(nr, nc) {
        assert(owner_of(b1[sq_index(nr, nc)]) == owner_of(b2[sq_index(nr, nc)]));
        lemma_slide_same(b1, b2, owner, nr + dr, nc + dc, dr, dc, (n - 1) as nat);
    }
}

proof fn lemma_lines_same(b1: Seq<i8>, b2: Seq<i8>, owner: i8, r: int, c: int)
    requires
        same_silhouette(b1, b2),
    ensures
        forall|dr: int, dc: int|
            #![trigger line(b1, owner, r, c, dr, dc)]
            -1 <= dr <= 1 && -1 <= dc <= 1 ==> line(b1, owner, r, c, dr, dc) == line(
                b2,
                owner,
                r,
                c,
                dr,
                dc,
            ),
        forall|dr: int, dc: int|
            #![trigger reach3(b1, owner, r, c, dr, dc)]
            -1 <= dr <= 1 && -1 <= dc <= 1 ==> reach3(b1, owner, r, c, dr, dc) == reach3(
                b2,
                owner,
                r,
                c,
                dr,
                dc,
            ),
        forall|nr: int, nc: int| #[trigger] step_to(b1, owner, nr, nc) == step_to(b2, owner, nr, nc),
{
    assert forall|dr: int, dc: int| -1 <= dr <= 1 && -1 <= dc <= 1 implies line(
        b1,
        owner,
        r,
        c,
        dr,
        dc,
    ) == line(b2, owner, r, c, dr, dc) by {
        lemma_slide_same(b1, b2, owner, r + dr, c + dc, dr, dc, 9);
    }
    assert forall|dr: int, dc: int| -1 <= dr <= 1 && -1 <= dc <= 1 implies reach3(
        b1,
        owner,
        r,
        c,
        dr,
        dc,
    ) == reach3(b2, owner, r, c, dr, dc) by {
        lemma_slide_same(b1, b2, owner, r + dr, c + dc, dr, dc, 3);
    }
    assert forall|nr: int, nc: int| #[trigger] step_to(b1, owner, nr, nc) == step_to(b2, owner, nr, nc) by {
        if on_board(nr, nc) {
            assert(owner_of(b1[sq_index(nr, nc)]) == owner_of(b2[sq_index(nr, nc)]));
        }
    }
}

/// A piece has the same moves on boards with the same silhouette.
pub proof fn lemma_piece_moves_same(p: i8, r: int, c: int, b1: Seq<i8>, b2: Seq<i8>)
    requires
        same_silhouette(b1, b2),
    ensures
        piece_moves(p, r, c, b1) == piece_moves(p, r, c, b2),
{
    let owner = owner_of(p);
    lemma_lines_same(b1, b2, owner, r, c);
    let d = forward(owner);
    assert(line(b1, owner, r, c, d, 0) == line(b2, owner, r, c, d, 0));
    assert(line(b1, owner, r, c, -1, -1) == line(b2, owner, r, c, -1, -1));
    assert(line(b1, owner, r, c, -1, 0) == line(b2, owner, r, c, -1, 0));
    assert(line(b1, owner, r, c, -1, 1) == line(b2, owner, r, c, -1, 1));
    assert(line(b1, owner, r, c, 0, -1) == line(b2, owner, r, c, 0, -1));
    assert(line(b1, owner, r, c, 0, 1) == line(b2, owner, r, c, 0, 1));
    assert(line(b1, owner, r, c, 1, -1) == line(b2, owner, r, c, 1, -1));
    assert(line(b1, owner, r, c, 1, 0) == line(b2, owner, r, c, 1, 0));
    assert(line(b1, owner, r, c, 1, 1) == line(b2, owner, r, c, 1, 1));
    assert(reach3(b1, owner, r, c, -1, -1) == reach3(b2, owner, r, c, -1, -1));
    assert(reach3(b1, owner, r, c, -1, 0) == reach3(b2, owner, r, c, -1, 0));
    assert(reach3(b1, owner, r, c, -1, 1) == reach3(b2, owner, r, c, -1, 1));
    assert(reach3(b1, owner, r, c, 0, -1) == reach3(b2, owner, r, c, 0, -1));
    assert(reach3(b1, owner, r, c, 0, 1) == reach3(b2, owner, r, c, 0, 1));
    assert(reach3(b1, owner, r, c, 1, -1) == reach3(b2, owner, r, c, 1, -1));
    assert(reach3(b1, owner, r, c, 1, 0) == reach3(b2, owner, r, c, 1, 0));
    assert(reach3(b1, owner, r, c, 1, 1) == reach3(b2, owner, r, c, 1, 1));
}

proof fn lemma_king_from_same(b1: Seq<i8>, b2: Seq<i8>, owner: i8, k: int)
    requires
        b1.len() == 81,
        b2.len() == 81,
        forall|j: int| 0 <= j < 81 ==> is_king_of(#[trigger] b1[j], owner) == is_king_of(b2[j], owner),
    ensures
        king_from(b1, owner, k) == king_from(b2, owner, k),
    decreases 81 - k,
{
    if 0 <= k < 81 {
        assert(is_king_of(b1[k], owner) == is_king_of(b2[k], owner));
        lemma_king_from_same(b1, b2, owner, k + 1);
    }
}

/// Whether `owner` is in check does not change when some of `owner`'s own
/// pieces are replaced by other pieces of theirs, kings staying kings and
/// non-kings staying non-kings.
pub proof fn lemma_in_check_stable(b1: Seq<i8>, b2: Seq<i8>, owner: i8)
    requires
        same_silhouette(b1, b2),
        owner == SENTE || owner == GOTE,
        forall|k: int| 0 <= k < 81 ==> is_king_of(#[trigger] b1[k], owner) == is_king_of(b2[k], owner),
        forall|k: int| 0 <= k < 81 && #[trigger] b1[k] != b2[k] ==> owner_of(b1[k]) == owner,
    ensures
        in_check(b1, owner) == in_check(b2, owner),
{
    lemma_king_from_same(b1, b2, owner, 0);
    assert forall|k: int| #[trigger] checker_at(b1, owner, k) == checker_at(b2, owner, k) by {
        if 0 <= k < 81 {
            if b1[k] == b2[k] {
                lemma_piece_moves_same(b1[k], row_of(k), col_of(k), b1, b2);
            } else {
                assert(owner_of(b1[k]) == owner);
                assert(owner_of(b2[k]) == owner);
            }
        }
    }
    if in_check(b1, owner) && !in_check(b2, owner) {
        let k = choose|k: int| #[trigger] checker_at(b1, owner, k);
        assert(checker_at(b2, owner, k));
    }
    if !in_check(b1, owner) && in_check(b2, owner) {
        let k = choose|k: int| #[trigger] checker_at(b2, owner, k);
        assert(checker_at(b1, owner, k));
    }
}

/// Squares of a move list that are on the board and not occupied by `owner`.
pub open spec fn free_targets(s: Seq<(usize, usize)>, b: Seq<i8>, owner: i8) -> bool {
    forall|i: int|
        0 <= i < s.len() ==> on_board(#[trigger] s[i].0 as int, s[i].1 as int) && owner_of(
            at(b, s[i].0 as int, s[i].1 as int),
        ) != owner
}

proof fn lemma_free_concat(a: Seq<(usize, usize)>, c: Seq<(usize, usize)>, b: Seq<i8>, owner: i8)
    requires
        free_targets(a, b, owner),
        free_targets(c, b, owner),
    ensures
        free_targets(a + c, b, owner),
{
    assert forall|i: int| 0 <= i < (a + c).len() implies on_board(
        #[trigger] (a + c)[i].0 as int,
        (a + c)[i].1 as int,
    ) && owner_of(at(b, (a + c)[i].0 as int, (a + c)[i].1 as int)) != owner by {
        if i < a.len() {
            assert((a + c)[i] == a[i]);
        } else {
            assert((a + c)[i] == c[i - a.len()]);
        }
    }
}

pub(crate) proof fn lemma_slide_free(b: Seq<i8>, owner: i8, nr: int, nc: int, dr: int, dc: int, n: nat)
    ensures
        free_targets(slide(b, owner, nr, nc, dr, dc, n), b, owner),
    decreases n,
{
    if n > 0 && on_board(nr, nc) && owner_of(at(b, nr, nc)) != owner && at(b, nr, nc) == EMPTY {
        lemma_slide_free(b, owner, nr + dr, nc + dc, dr, dc, (n - 1) as nat);
        lemma_free_concat(
            seq![(nr as usize, nc as usize)],
            slide(b, owner, nr + dr, nc + dc, dr, dc, (n - 1) as nat),
            b,
            owner,
        );
    }
}

pub(crate) proof fn lemma_all_free(b: Seq<i8>, owner: i8, r: int, c: int)
    ensures
        forall|dr: int, dc: int| #[trigger] free_targets(line(b, owner, r, c, dr, dc), b, owner),
        forall|dr: int, dc: int| #[trigger] free_targets(reach3(b, owner, r, c, dr, dc), b, owner),
        forall|nr: int, nc: int| #[trigger] free_targets(step_to(b, owner, nr, nc), b, owner),
{
    assert forall|dr: int, dc: int| #[trigger] free_targets(line(b, owner, r, c, dr, dc), b, owner) by {
        lemma_slide_free(b, owner, r + dr, c + dc, dr, dc, 9);
    }
    assert forall|dr: int, dc: int| #[trigger] free_targets(reach3(b, owner, r, c, dr, dc), b, owner) by {
        lemma_slide_free(b, owner, r + dr, c + dc, dr, dc, 3);
    }
}

proof fn lemma_free_concat_all(b: Seq<i8>, owner: i8)
    ensures
        forall|x: Seq<(usize, usize)>, y: Seq<(usize, usize)>|
            free_targets(x, b, owner) && free_targets(y, b, owner) ==> #[trigger] free_targets(
                x + y,
                b,
                owner,
            ),
{
    assert forall|x: Seq<(usize, usize)>, y: Seq<(usize, usize)>|
        free_targets(x, b, owner) && free_targets(y, b, owner) implies #[trigger] free_targets(
        x + y,
        b,
        owner,
    ) by {
        lemma_free_concat(x, y, b, owner);
    }
}

/// Every destination of a piece is on the board and not occupied by the
/// piece's owner.
#[verifier::spinoff_prover]
#[verifier::rlimit(60)]
pub proof fn lemma_piece_moves_free(p: i8, r: int, c: int, b: Seq<i8>)
    ensures
        free_targets(piece_moves(p, r, c, b), b, owner_of(p)),
{
    let o = owner_of(p);
    lemma_all_free(b, o, r, c);
    lemma_free_concat_all(b, o);
    assert(free_targets(seq![], b, o));
}

pub(crate) proof fn lemma_concat_contains<A>(x: Seq<A>, y: Seq<A>, a: A)
    requires
        (x + y).contains(a),
    ensures
        x.contains(a) || y.contains(a),
{
    let i = choose|i: int| 0 <= i < (x + y).len() && (x + y)[i] == a;
    if i < x.len() {
        assert(x[i] == a);
    } else {
        assert(y[i - x.len()] == a);
    }
}

/// Row and column of an on-board square index.
pub proof fn lemma_index_square(k: int)
    requires
        0 <= k < 81,
    ensures
        0 <= row_of(k) < 9,
        0 <= col_of(k) < 9,
        sq_index(row_of(k), col_of(k)) == k,
{
    vstd::arithmetic::div_mod::lemma_fundamental_div_mod(k, 9);
    vstd::arithmetic::div_mod::lemma_mod_bound(k, 9);
    vstd::arithmetic::div_mod::lemma_div_pos_is_pos(k, 9);
    assert(k / 9 < 9) by {
        vstd::arithmetic::div_mod::lemma_div_is_ordered(k, 80, 9);
    }
}

pub(crate) proof fn lemma_target_moves_member(
    b: Seq<i8>,
    p: i8,
    r: int,
    c: int,
    owner: i8,
    ts: Seq<(usize, usize)>,
    m: ShogiMove,
)
    requires
        target_moves(b, p, r, c, owner, ts).contains(m),
    ensures
        exists|i: int|
            0 <= i < ts.len() && legal_step(b, r, c, ts[i].0 as int, ts[i].1 as int, owner)
                && #[trigger] step_variants(p, r, c, ts[i]).contains(m),
    decreases ts.len(),
{
    if ts.len() > 0 {
        let prefix = target_moves(b, p, r, c, owner, ts.drop_last());
        let last = if legal_step(b, r, c, ts.last().0 as int, ts.last().1 as int, owner) {
            step_variants(p, r, c, ts.last())
        } else {
            seq![]
        };
        lemma_concat_contains(prefix, last, m);
        if prefix.contains(m) {
            lemma_target_moves_member(b, p, r, c, owner, ts.drop_last(), m);
            let i = choose|i: int|
                0 <= i < ts.drop_last().len() && legal_step(
                    b,
                    r,
                    c,
                    ts.drop_last()[i].0 as int,
                    ts.drop_last()[i].1 as int,
                    owner,
                ) && #[trigger] step_variants(p, r, c, ts.drop_last()[i]).contains(m);
            assert(ts.drop_last()[i] == ts[i]);
        } else {
            assert(step_variants(p, r, c, ts[ts.len() - 1]).contains(m));
        }
    }
}

pub(crate) proof fn lemma_board_moves_member(b: Seq<i8>, owner: i8, variant: GameVariant, k: int, m: ShogiMove)
    requires
        board_moves(b, owner, variant, k).contains(m),
    ensures
        exists|j: int| 0 <= j < k && #[trigger] square_moves(b, owner, variant, j).contains(m),
    decreases k,
{
    if k > 0 {
        lemma_concat_contains(
            board_moves(b, owner, variant, k - 1),
            square_moves(b, owner, variant, k - 1),
            m,
        );
        if board_moves(b, owner, variant, k - 1).contains(m) {
            lemma_board_moves_member(b, owner, variant, k - 1, m);
        }
    }
}

pub(crate) proof fn lemma_drop_squares_member(
    b: Seq<i8>,
    pt: i8,
    owner: i8,
    sh: Seq<u8>,
    gh: Seq<u8>,
    variant: GameVariant,
    k: int,
    s: (usize, usize),
)
    requires
        drop_squares_upto(b, pt, owner, sh, gh, variant, k).contains(s),
    ensures
        exists|j: int|
            0 <= j < k && #[trigger] drop_ok(b, pt, owner, sh, gh, variant, j) && s == (
                row_of(j) as usize,
                col_of(j) as usize,
            ),
    decreases k,
{
    if k > 0 {
        let last = if drop_ok(b, pt, owner, sh, gh, variant, k - 1) {
            seq![(row_of(k - 1) as usize, col_of(k - 1) as usize)]
        } else {
            seq![]
        };
        lemma_concat_contains(drop_squares_upto(b, pt, owner, sh, gh, variant, k - 1), last, s);
        if drop_squares_upto(b, pt, owner, sh, gh, variant, k - 1).contains(s) {
            lemma_drop_squares_member(b, pt, owner, sh, gh, variant, k - 1, s);
        } else {
            assert(drop_ok(b, pt, owner, sh, gh, variant, k - 1));
        }
    }
}

pub(crate) proof fn lemma_drop_moves_member(
    b: Seq<i8>,
    owner: i8,
    sh: Seq<u8>,
    gh: Seq<u8>,
    variant: GameVariant,
    n: int,
    m: ShogiMove,
)
    requires
        drop_moves(b, owner, sh, gh, variant, n).contains(m),
    ensures
        exists|j: int|
            0 <= j < 81 && #[trigger] drop_ok(b, m.piece, owner, sh, gh, variant, j)
                && m.move_type == MOVE_TYPE_DROP && m.tr == row_of(j) as u8 && m.tc == col_of(j) as u8
                && m == ShogiMove::drop_move(m.piece, row_of(j) as u8, col_of(j) as u8),
        exists|i: int| 0 <= i < n && hand_for(owner, sh, gh)[i] != 0 && m.piece == #[trigger] hand_kind(i),
    decreases n,
{
    if n > 0 {
        let pt = hand_kind(n - 1);
        let sqs = drop_squares_upto(b, pt, owner, sh, gh, variant, 81);
        let last = if hand_for(owner, sh, gh)[n - 1] != 0 {
            drops_of(pt, sqs)
        } else {
            seq![]
        };
        lemma_concat_contains(drop_moves(b, owner, sh, gh, variant, n - 1), last, m);
        if drop_moves(b, owner, sh, gh, variant, n - 1).contains(m) {
            lemma_drop_moves_member(b, owner, sh, gh, variant, n - 1, m);
        } else {
            let i = choose|i: int| 0 <= i < last.len() && last[i] == m;
            let s = sqs[i];
            assert(m == ShogiMove::drop_move(pt, s.0 as u8, s.1 as u8));
            assert(sqs.contains(s));
            lemma_drop_squares_member(b, pt, owner, sh, gh, variant, 81, s);
            let j = choose|j: int|
                0 <= j < 81 && #[trigger] drop_ok(b, pt, owner, sh, gh, variant, j) && s == (
                    row_of(j) as usize,
                    col_of(j) as usize,
                );
            lemma_index_square(j);
            assert(drop_ok(b, m.piece, owner, sh, gh, variant, j));
            assert(m.piece == hand_kind(n - 1));
        }
    }
}

pub(crate) proof fn lemma_nin_moves_member(b: Seq<i8>, owner: i8, k: int, m: ShogiMove)
    requires
        nin_moves(b, owner, k).contains(m),
    ensures
        exists|j: int|
            0 <= j < k && owner_of(#[trigger] b[j]) == owner && kind_of(b[j]) == KI && m
                == ShogiMove::promote_nin_move(row_of(j) as u8, col_of(j) as u8)
                && crate::movegen::nin_promotable(b, row_of(j), col_of(j), owner),
    decreases k,
{
    if k > 0 {
        let last = if owner_of(b[k - 1]) == owner && kind_of(b[k - 1]) == KI
            && crate::movegen::nin_promotable(b, row_of(k - 1), col_of(k - 1), owner) {
            seq![ShogiMove::promote_nin_move(row_of(k - 1) as u8, col_of(k - 1) as u8)]
        } else {
            seq![]
        };
        lemma_concat_contains(nin_moves(b, owner, k - 1), last, m);
        if nin_moves(b, owner, k - 1).contains(m) {
            lemma_nin_moves_member(b, owner, k - 1, m);
        } else {
            assert(b[k - 1] == b[k - 1]);
        }
    }
}

pub(crate) proof fn lemma_abort_moves_member(b: Seq<i8>, owner: i8, k: int, m: ShogiMove)
    requires
        abort_moves(b, owner, k).contains(m),
    ensures
        exists|j: int|
            0 <= j < k && owner_of(#[trigger] b[j]) == owner && kind_of(b[j]) == NIN && m
                == ShogiMove::abort_nin_move(row_of(j) as u8, col_of(j) as u8),
    decreases k,
{
    if k > 0 {
        let last = if owner_of(b[k - 1]) == owner && kind_of(b[k - 1]) == NIN {
            seq![ShogiMove::abort_nin_move(row_of(k - 1) as u8, col_of(k - 1) as u8)]
        } else {
            seq![]
        };
        lemma_concat_contains(abort_moves(b, owner, k - 1), last, m);
        if abort_moves(b, owner, k - 1).contains(m) {
            lemma_abort_moves_member(b, owner, k - 1, m);
        } else {
            assert(b[k - 1] == b[k - 1]);
        }
    }
}

/// Replacing `owner`'s piece on square `j` by another non-king piece of
/// theirs leaves `owner`'s check status as it was.
proof fn lemma_swap_own_piece(b: Seq<i8>, owner: i8, j: int, v: i8)
    requires
        b.len() == 81,
        0 <= j < 81,
        owner == SENTE || owner == GOTE,
        owner_of(b[j]) == owner,
        owner_of(v) == owner,
        kind_of(b[j]) != OU,
        kind_of(v) != OU,
    ensures
        in_check(b.update(j, v), owner) == in_check(b, owner),
{
    let b2 = b.update(j, v);
    assert forall|k: int| 0 <= k < 81 implies owner_of(#[trigger] b[k]) == owner_of(b2[k]) by {}
    lemma_in_check_stable(b, b2, owner);
}

proof fn lemma_board_move_safe(
    b: Seq<i8>,
    owner: i8,
    variant: GameVariant,
    k: int,
    m: ShogiMove,
)
    requires
        b.len() == 81,
        owner == SENTE || owner == GOTE,
        0 <= k < 81,
        square_moves(b, owner, variant, k).contains(m),
    ensures
        !in_check(board_after(b, m, owner), owner),
{
    let p = b[k];
    lemma_index_square(k);
    let r = row_of(k);
    let c = col_of(k);
    let ts = piece_moves(p, r, c, b);
    assert(owner_of(p) == owner);
    lemma_target_moves_member(b, p, r, c, owner, ts, m);
    let i = choose|i: int|
        0 <= i < ts.len() && legal_step(b, r, c, ts[i].0 as int, ts[i].1 as int, owner)
            && #[trigger] step_variants(p, r, c, ts[i]).contains(m);
    let t = ts[i];
    lemma_piece_moves_free(p, r, c, b);
    assert(on_board(t.0 as int, t.1 as int));
    assert(owner_of(at(b, t.0 as int, t.1 as int)) != owner);
    let ti = sq_index(t.0 as int, t.1 as int);
    assert(m.move_type == MOVE_TYPE_MOVE && m.fr == r as u8 && m.fc == c as u8 && m.tr == t.0 as u8
        && m.tc == t.1 as u8);
    assert(sq_index(m.fr as int, m.fc as int) == k);
    assert(sq_index(m.tr as int, m.tc as int) == ti);
    assert(ti != k);
    let b1 = after_step(b, r, c, t.0 as int, t.1 as int);
    let x = arriving_piece(p, m.promote, owner);
    let b2 = board_after(b, m, owner);
    assert(b2 == b.update(k, EMPTY).update(ti, x));
    assert(b1 == b.update(ti, p).update(k, EMPTY));
    assert(owner_of(x) == owner && kind_of(x) != OU || x == p) by {
        if m.promote {
            match promoted(kind_of(p)) {
                Some(q) => {
                    assert(9 <= q <= 17);
                },
                None => {},
            }
        }
    }
    assert(kind_of(p) != OU || x == p);
    assert forall|j: int| 0 <= j < 81 implies owner_of(#[trigger] b1[j]) == owner_of(b2[j]) by {}
    assert forall|j: int| 0 <= j < 81 implies is_king_of(#[trigger] b1[j], owner) == is_king_of(
        b2[j],
        owner,
    ) by {}
    assert forall|j: int| 0 <= j < 81 && #[trigger] b1[j] != b2[j] implies owner_of(b1[j]) == owner by {}
    lemma_in_check_stable(b1, b2, owner);
}

/// Every move produced by the legal move generator leaves the mover's king
/// out of check.
pub proof fn lemma_legal_moves_are_safe(
    b: Seq<i8>,
    owner: i8,
    sh: Seq<u8>,
    gh: Seq<u8>,
    variant: GameVariant,
    m: ShogiMove,
)
    requires
        b.len() == 81,
        owner == SENTE || owner == GOTE,
        legal_moves(b, owner, sh, gh, variant).contains(m),
    ensures
        !in_check(board_after(b, m, owner), owner),
{
    let bm = board_moves(b, owner, variant, 81);
    let dm = drop_moves(b, owner, sh, gh, variant, 8);
    let special = if variant == GameVariant::Ouke && !in_check(b, owner) {
        nin_moves(b, owner, 81) + abort_moves(b, owner, 81)
    } else {
        seq![]
    };
    lemma_concat_contains(bm + dm, special, m);
    if (bm + dm).contains(m) {
        lemma_concat_contains(bm, dm, m);
        if bm.contains(m) {
            lemma_board_moves_member(b, owner, variant, 81, m);
            let k = choose|k: int| 0 <= k < 81 && #[trigger] square_moves(b, owner, variant, k).contains(m);
            lemma_board_move_safe(b, owner, variant, k, m);
        } else {
            lemma_drop_moves_member(b, owner, sh, gh, variant, 8, m);
            let j = choose|j: int|
                0 <= j < 81 && #[trigger] drop_ok(b, m.piece, owner, sh, gh, variant, j)
                    && m.move_type == MOVE_TYPE_DROP && m.tr == row_of(j) as u8 && m.tc == col_of(j) as u8;
            lemma_index_square(j);
            assert(sq_index(m.tr as int, m.tc as int) == j);
        }
    } else {
        assert(variant == GameVariant::Ouke && !in_check(b, owner));
        lemma_concat_contains(nin_moves(b, owner, 81), abort_moves(b, owner, 81), m);
        if nin_moves(b, owner, 81).contains(m) {
            lemma_nin_moves_member(b, owner, 81, m);
            let j = choose|j: int|
                0 <= j < 81 && owner_of(#[trigger] b[j]) == owner && kind_of(b[j]) == KI && m
                    == ShogiMove::promote_nin_move(row_of(j) as u8, col_of(j) as u8);
            lemma_index_square(j);
            lemma_swap_own_piece(b, owner, j, (owner * NIN) as i8);
        } else {
            lemma_abort_moves_member(b, owner, 81, m);
            let j = choose|j: int|
                0 <= j < 81 && owner_of(#[trigger] b[j]) == owner && kind_of(b[j]) == NIN && m
                    == ShogiMove::abort_nin_move(row_of(j) as u8, col_of(j) as u8);
            lemma_index_square(j);
            lemma_swap_own_piece(b, owner, j, (owner * KI) as i8);
        }
    }
}

/// Every drop square is empty, allowed by its rank, and, for a pawn, in a
/// column holding no pawn of the dropping side.
pub proof fn lemma_drop_squares_sound(
    b: Seq<i8>,
    pt: i8,
    owner: i8,
    sh: Seq<u8>,
    gh: Seq<u8>,
    variant: GameVariant,
    s: (usize, usize),
)
    requires
        drop_squares_upto(b, pt, owner, sh, gh, variant, 81).contains(s),
    ensures
        on_board(s.0 as int, s.1 as int),
        at(b, s.0 as int, s.1 as int) == EMPTY,
        crate::check::rank_allows_drop(pt, owner, s.0 as int),
        pt == crate::types::FU ==> !crate::check::pawn_in_column(b, s.1 as int, owner),
{
    lemma_drop_squares_member(b, pt, owner, sh, gh, variant, 81, s);
    let j = choose|j: int|
        0 <= j < 81 && #[trigger] drop_ok(b, pt, owner, sh, gh, variant, j) && s == (
            row_of(j) as usize,
            col_of(j) as usize,
        );
    lemma_index_square(j);
}

proof fn lemma_board_moves_are_moves(b: Seq<i8>, owner: i8, variant: GameVariant, m: ShogiMove)
    requires
        board_moves(b, owner, variant, 81).contains(m),
    ensures
        m.move_type == MOVE_TYPE_MOVE,
{
    lemma_board_moves_member(b, owner, variant, 81, m);
    let k = choose|k: int| 0 <= k < 81 && #[trigger] square_moves(b, owner, variant, k).contains(m);
    let p = b[k];
    let ts = piece_moves(p, row_of(k), col_of(k), b);
    lemma_target_moves_member(b, p, row_of(k), col_of(k), owner, ts, m);
}

/// Every drop the generator produces is of a kind the mover holds.
pub proof fn lemma_drops_are_held(
    b: Seq<i8>,
    owner: i8,
    sh: Seq<u8>,
    gh: Seq<u8>,
    variant: GameVariant,
    m: ShogiMove,
)
    requires
        legal_moves(b, owner, sh, gh, variant).contains(m),
        m.move_type == MOVE_TYPE_DROP,
    ensures
        crate::types::hand_slot(m.piece) matches Some(i) && hand_for(owner, sh, gh)[i as int] > 0,
{
    let bm = board_moves(b, owner, variant, 81);
    let dm = drop_moves(b, owner, sh, gh, variant, 8);
    let special = if variant == GameVariant::Ouke && !in_check(b, owner) {
        nin_moves(b, owner, 81) + abort_moves(b, owner, 81)
    } else {
        seq![]
    };
    lemma_concat_contains(bm + dm, special, m);
    if (bm + dm).contains(m) {
        lemma_concat_contains(bm, dm, m);
        if bm.contains(m) {
            lemma_board_moves_are_moves(b, owner, variant, m);
        } else {
            lemma_drop_moves_member(b, owner, sh, gh, variant, 8, m);
            let i = choose|i: int| 0 <= i < 8 && hand_for(owner, sh, gh)[i] != 0 && m.piece == #[trigger] hand_kind(i);
            crate::types::lemma_hand_index_roundtrip(m.piece, i);
        }
    } else {
        lemma_concat_contains(nin_moves(b, owner, 81), abort_moves(b, owner, 81), m);
        if nin_moves(b, owner, 81).contains(m) {
            lemma_nin_moves_member(b, owner, 81, m);
        } else {
            lemma_abort_moves_member(b, owner, 81, m);
        }
    }
}

proof fn lemma_target_moves_nonempty(
    b: Seq<i8>,
    p: i8,
    r: int,
    c: int,
    owner: i8,
    ts: Seq<(usize, usize)>,
)
    ensures
        target_moves(b, p, r, c, owner, ts).len() > 0 <==> exists|i: int|
            0 <= i < ts.len() && #[trigger] legal_step(b, r, c, ts[i].0 as int, ts[i].1 as int, owner),
    decreases ts.len(),
{
    if ts.len() > 0 {
        lemma_target_moves_nonempty(b, p, r, c, owner, ts.drop_last());
        let n = ts.len() - 1;
        if exists|i: int|
            0 <= i < ts.len() && #[trigger] legal_step(b, r, c, ts[i].0 as int, ts[i].1 as int, owner) {
            let i = choose|i: int|
                0 <= i < ts.len() && #[trigger] legal_step(b, r, c, ts[i].0 as int, ts[i].1 as int, owner);
            if i < n {
                assert(ts.drop_last()[i] == ts[i]);
            }
        }
        if exists|i: int|
            0 <= i < ts.drop_last().len() && #[trigger] legal_step(
                b,
                r,
                c,
                ts.drop_last()[i].0 as int,
                ts.drop_last()[i].1 as int,
                owner,
            ) {
            let i = choose|i: int|
                0 <= i < ts.drop_last().len() && #[trigger] legal_step(
                    b,
                    r,
                    c,
                    ts.drop_last()[i].0 as int,
                    ts.drop_last()[i].1 as int,
                    owner,
                );
            assert(ts.drop_last()[i] == ts[i]);
        }
    }
}

proof fn lemma_square_moves_nonempty(b: Seq<i8>, owner: i8, variant: GameVariant, k: int)
    requires
        0 <= k < 81,
    ensures
        square_moves(b, owner, variant, k).len() > 0 <==> exists|i: int| #[trigger] escape_at(b, owner, k, i),
{
    let p = b[k];
    let ts = piece_moves(p, row_of(k), col_of(k), b);
    lemma_target_moves_nonempty(b, p, row_of(k), col_of(k), owner, ts);
    if exists|i: int| #[trigger] escape_at(b, owner, k, i) {
        let i = choose|i: int| #[trigger] escape_at(b, owner, k, i);
        assert(legal_step(b, row_of(k), col_of(k), ts[i].0 as int, ts[i].1 as int, owner));
    }
    if square_moves(b, owner, variant, k).len() > 0 {
        let i = choose|i: int|
            0 <= i < ts.len() && #[trigger] legal_step(b, row_of(k), col_of(k), ts[i].0 as int, ts[i].1 as int, owner);
        assert(escape_at(b, owner, k, i));
    }
}

proof fn lemma_board_moves_nonempty(b: Seq<i8>, owner: i8, variant: GameVariant, n: int)
    requires
        0 <= n <= 81,
    ensures
        board_moves(b, owner, variant, n).len() > 0 <==> exists|k: int, i: int|
            0 <= k < n && #[trigger] escape_at(b, owner, k, i),
    decreases n,
{
    if n > 0 {
        lemma_board_moves_nonempty(b, owner, variant, n - 1);
        lemma_square_moves_nonempty(b, owner, variant, n - 1);
        if exists|k: int, i: int| 0 <= k < n && #[trigger] escape_at(b, owner, k, i) {
            let (k, i) = choose|k: int, i: int| 0 <= k < n && #[trigger] escape_at(b, owner, k, i);
            if k < n - 1 {
                assert(0 <= k < n - 1 && escape_at(b, owner, k, i));
            } else {
                assert(escape_at(b, owner, n - 1, i));
            }
        }
    }
}

proof fn lemma_drop_moves_nonempty(
    b: Seq<i8>,
    owner: i8,
    sh: Seq<u8>,
    gh: Seq<u8>,
    variant: GameVariant,
    n: int,
)
    ensures
        drop_moves(b, owner, sh, gh, variant, n).len() > 0 <==> some_drop(b, owner, sh, gh, variant, n),
    decreases n,
{
    if n > 0 {
        lemma_drop_moves_nonempty(b, owner, sh, gh, variant, n - 1);
    }
}

/// Checkmate detection agrees with move generation: the side to move has
/// neither a legal board move nor a legal drop exactly when the generator
/// finds no move for them. In the ouke variant the NIN moves, offered only
/// when not in check, are left aside, so the agreement is stated for the
/// normal game and for positions in check.
pub proof fn lemma_checkmate_iff_no_moves(
    b: Seq<i8>,
    owner: i8,
    sh: Seq<u8>,
    gh: Seq<u8>,
    variant: GameVariant,
)
    requires
        variant == GameVariant::Normal || in_check(b, owner),
    ensures
        mate(b, owner, sh, gh, variant) <==> legal_moves(b, owner, sh, gh, variant).len() == 0,
{
    lemma_board_moves_nonempty(b, owner, variant, 81);
    lemma_drop_moves_nonempty(b, owner, sh, gh, variant, 8);
    if exists|k: int, i: int| #[trigger] escape_at(b, owner, k, i) {
        let (k, i) = choose|k: int, i: int| #[trigger] escape_at(b, owner, k, i);
        assert(0 <= k < 81 && escape_at(b, owner, k, i));
    }
}

/// Generated drops obey the drop rules: the square was empty, the rank
/// leaves the piece a move, and a pawn drop neither doubles a pawn in its
/// column nor gives checkmate.
pub proof fn lemma_drops_lawful(
    b: Seq<i8>,
    owner: i8,
    sh: Seq<u8>,
    gh: Seq<u8>,
    variant: GameVariant,
    m: ShogiMove,
)
    requires
        legal_moves(b, owner, sh, gh, variant).contains(m),
        m.move_type == MOVE_TYPE_DROP,
    ensures
        at(b, m.tr as int, m.tc as int) == EMPTY,
        crate::check::rank_allows_drop(m.piece, owner, m.tr as int),
        m.piece == crate::types::FU ==> !crate::check::pawn_in_column(b, m.tc as int, owner),
        m.piece == crate::types::FU ==> !(in_check(board_after(b, m, owner), (-owner) as i8) && mate(
            board_after(b, m, owner),
            (-owner) as i8,
            sh,
            gh,
            variant,
        )),
{
    let bm = board_moves(b, owner, variant, 81);
    let dm = drop_moves(b, owner, sh, gh, variant, 8);
    let special = if variant == GameVariant::Ouke && !in_check(b, owner) {
        nin_moves(b, owner, 81) + abort_moves(b, owner, 81)
    } else {
        seq![]
    };
    lemma_concat_contains(bm + dm, special, m);
    if (bm + dm).contains(m) {
        lemma_concat_contains(bm, dm, m);
        if bm.contains(m) {
            lemma_board_moves_are_moves(b, owner, variant, m);
        } else {
            lemma_drop_moves_member(b, owner, sh, gh, variant, 8, m);
            let j = choose|j: int|
                0 <= j < 81 && #[trigger] drop_ok(b, m.piece, owner, sh, gh, variant, j)
                    && m.move_type == MOVE_TYPE_DROP && m.tr == row_of(j) as u8 && m.tc == col_of(j) as u8;
            lemma_index_square(j);
            assert(sq_index(m.tr as int, m.tc as int) == j);
        }
    } else {
        lemma_concat_contains(nin_moves(b, owner, 81), abort_moves(b, owner, 81), m);
        if nin_moves(b, owner, 81).contains(m) {
            lemma_nin_moves_member(b, owner, 81, m);
        } else {
            lemma_abort_moves_member(b, owner, 81, m);
        }
    }
}

/// Number of pieces held in a hand.
pub open spec fn held(h: Seq<u8>) -> int
    decreases h.len(),
{
    if h.len() == 0 {
        0
    } else {
        held(h.drop_last()) + h.last()
    }
}

/// Pieces in play: those on the board and those in either hand.
pub open spec fn piece_count(b: Seq<i8>, sh: Seq<u8>, gh: Seq<u8>) -> int {
    (b.len() - empties(b)) + held(sh) + held(gh)
}

/// `m` is a board move that takes a piece which no hand can hold, so the
/// piece leaves the game.
pub open spec fn takes_unheld_piece(b: Seq<i8>, m: ShogiMove, variant: GameVariant) -> bool {
    &&& m.move_type == MOVE_TYPE_MOVE
    &&& at(b, m.tr as int, m.tc as int) != EMPTY
    &&& capture_slot(at(b, m.tr as int, m.tc as int), variant) is None
}

proof fn lemma_empties_update(b: Seq<i8>, k: int, v: i8)
    requires
        0 <= k < b.len(),
    ensures
        empties(b.update(k, v)) + (if b[k] == EMPTY {
            1int
        } else {
            0
        }) == empties(b) + (if v == EMPTY {
            1int
        } else {
            0
        }),
    decreases b.len(),
{
    if k == b.len() - 1 {
        assert(b.update(k, v).drop_last() =~= b.drop_last());
    } else {
        lemma_empties_update(b.drop_last(), k, v);
        assert(b.update(k, v).drop_last() =~= b.drop_last().update(k, v));
    }
}

proof fn lemma_held_update(h: Seq<u8>, i: int, v: u8)
    requires
        0 <= i < h.len(),
    ensures
        held(h.update(i, v)) == held(h) - h[i] + v,
    decreases h.len(),
{
    if i == h.len() - 1 {
        assert(h.update(i, v).drop_last() =~= h.drop_last());
    } else {
        lemma_held_update(h.drop_last(), i, v);
        assert(h.update(i, v).drop_last() =~= h.drop_last().update(i, v));
    }
}

/// The squares a board move leaves and reaches: an own piece leaves a square
/// for another one, not held by the mover, and arrives as a piece.
proof fn lemma_board_move_squares(b: Seq<i8>, owner: i8, variant: GameVariant, k: int, m: ShogiMove)
    requires
        b.len() == 81,
        owner == SENTE || owner == GOTE,
        0 <= k < 81,
        square_moves(b, owner, variant, k).contains(m),
    ensures
        m.move_type == MOVE_TYPE_MOVE,
        sq_index(m.fr as int, m.fc as int) == k,
        0 <= sq_index(m.tr as int, m.tc as int) < 81,
        sq_index(m.tr as int, m.tc as int) != k,
        owner_of(b[k]) == owner,
        owner_of(b[sq_index(m.tr as int, m.tc as int)]) != owner,
        arriving_piece(b[k], m.promote, owner) != EMPTY,
{
    let p = b[k];
    lemma_index_square(k);
    let r = row_of(k);
    let c = col_of(k);
    let ts = piece_moves(p, r, c, b);
    lemma_target_moves_member(b, p, r, c, owner, ts, m);
    let i = choose|i: int|
        0 <= i < ts.len() && legal_step(b, r, c, ts[i].0 as int, ts[i].1 as int, owner)
            && #[trigger] step_variants(p, r, c, ts[i]).contains(m);
    let t = ts[i];
    lemma_piece_moves_free(p, r, c, b);
    assert(on_board(t.0 as int, t.1 as int));
    assert(owner_of(at(b, t.0 as int, t.1 as int)) != owner);
    assert(m.move_type == MOVE_TYPE_MOVE && m.fr == r as u8 && m.fc == c as u8 && m.tr == t.0 as u8
        && m.tc == t.1 as u8);
    if m.promote {
        match promoted(kind_of(p)) {
            Some(q) => {
                assert(9 <= q <= 17);
            },
            None => {},
        }
    }
}

/// A legal move neither creates nor destroys pieces: what leaves the board
/// goes into the mover's hand and what is dropped comes out of it. The one
/// exception is a taken piece that no hand can hold (a king, or in ouke a
/// KO or WK), which leaves the game.
pub proof fn lemma_legal_move_keeps_pieces(
    b: Seq<i8>,
    owner: i8,
    sh: Seq<u8>,
    gh: Seq<u8>,
    variant: GameVariant,
    m: ShogiMove,
)
    requires
        b.len() == 81,
        sh.len() == 8,
        gh.len() == 8,
        owner == SENTE || owner == GOTE,
        legal_moves(b, owner, sh, gh, variant).contains(m),
        move_fits(b, m, sh, gh, owner, variant),
    ensures
        ({
            let a = position_after(b, m, sh, gh, owner, variant);
            piece_count(a.0, a.1, a.2) == piece_count(b, sh, gh) - (if takes_unheld_piece(
                b,
                m,
                variant,
            ) {
                1int
            } else {
                0
            })
        }),
{
    let a = position_after(b, m, sh, gh, owner, variant);
    let h = hand_for(owner, sh, gh);
    let h2 = mover_hand_after(h, b, m, variant);
    let t = sq_index(m.tr as int, m.tc as int);
    assert(a.1 == (if owner == SENTE { h2 } else { sh }));
    assert(a.2 == (if owner == SENTE { gh } else { h2 }));
    let bm = board_moves(b, owner, variant, 81);
    let dm = drop_moves(b, owner, sh, gh, variant, 8);
    let special = if variant == GameVariant::Ouke && !in_check(b, owner) {
        nin_moves(b, owner, 81) + abort_moves(b, owner, 81)
    } else {
        seq![]
    };
    lemma_concat_contains(bm + dm, special, m);
    if (bm + dm).contains(m) && bm.contains(m) {
        lemma_board_moves_member(b, owner, variant, 81, m);
        let k = choose|k: int| 0 <= k < 81 && #[trigger] square_moves(b, owner, variant, k).contains(m);
        lemma_board_move_squares(b, owner, variant, k, m);
        let x = arriving_piece(b[k], m.promote, owner);
        let b1 = b.update(k, EMPTY);
        assert(a.0 == b1.update(t, x));
        lemma_empties_update(b, k, EMPTY);
        lemma_empties_update(b1, t, x);
        assert(b1[t] == b[t]);
        assert(at(b, m.tr as int, m.tc as int) == b[t]);
        match capture_slot(b[t], variant) {
            Some(i) => {
                crate::types::lemma_hand_index_roundtrip(kind_of(b[t]), 0);
                crate::types::lemma_hand_index_roundtrip(crate::types::base_of(b[t]), 0);
                crate::types::lemma_hand_index_roundtrip(KI, 0);
                assert(i < 8);
                lemma_held_update(h, i as int, (h[i as int] + 1) as u8);
            },
            None => {},
        }
    } else if (bm + dm).contains(m) {
        lemma_concat_contains(bm, dm, m);
        lemma_drop_moves_member(b, owner, sh, gh, variant, 8, m);
        lemma_drops_are_held(b, owner, sh, gh, variant, m);
        lemma_drops_lawful(b, owner, sh, gh, variant, m);
        let i = crate::types::hand_slot(m.piece)->Some_0;
        crate::types::lemma_hand_index_roundtrip(m.piece, 0);
        assert(a.0 == b.update(t, (owner * m.piece) as i8));
        lemma_empties_update(b, t, (owner * m.piece) as i8);
        lemma_held_update(h, i as int, (h[i as int] - 1) as u8);
    } else {
        lemma_concat_contains(nin_moves(b, owner, 81), abort_moves(b, owner, 81), m);
        let v: i8 = if nin_moves(b, owner, 81).contains(m) {
            lemma_nin_moves_member(b, owner, 81, m);
            (owner * NIN) as i8
        } else {
            lemma_abort_moves_member(b, owner, 81, m);
            (owner * KI) as i8
        };
        let j = choose|j: int|
            0 <= j < 81 && owner_of(#[trigger] b[j]) == owner && (kind_of(b[j]) == KI || kind_of(b[j]) == NIN)
                && sq_index(m.tr as int, m.tc as int) == j;
        assert(a.0 == b.update(j, v));
        lemma_empties_update(b, j, v);
        assert(h2 == h);
    }
}

proof fn lemma_square_move_promotion(b: Seq<i8>, owner: i8, variant: GameVariant, k: int, m: ShogiMove)
    requires
        b.len() == 81,
        owner == SENTE || owner == GOTE,
        0 <= k < 81,
        square_moves(b, owner, variant, k).contains(m),
    ensures
        promotion_forced(at(b, m.fr as int, m.fc as int), m.tr as int) ==> m.promote,
        m.promote ==> promoted(kind_of(at(b, m.fr as int, m.fc as int))) is Some
            && promotion_offered(at(b, m.fr as int, m.fc as int), m.fr as int, m.tr as int),
{
    let p = b[k];
    lemma_index_square(k);
    let r = row_of(k);
    let c = col_of(k);
    let ts = piece_moves(p, r, c, b);
    lemma_target_moves_member(b, p, r, c, owner, ts, m);
    let i = choose|i: int|
        0 <= i < ts.len() && legal_step(b, r, c, ts[i].0 as int, ts[i].1 as int, owner)
            && #[trigger] step_variants(p, r, c, ts[i]).contains(m);
    let t = ts[i];
    lemma_piece_moves_free(p, r, c, b);
    assert(on_board(t.0 as int, t.1 as int));
    assert(m.fr == r as u8 && m.fc == c as u8 && m.tr == t.0 as u8);
    assert(at(b, m.fr as int, m.fc as int) == p);
}

/// Promotion in generated board moves: a pawn, lance or knight that would
/// be left without a move on its destination is always promoted, and a move
/// promotes only a piece that has a promoted form, on a move into, within or
/// out of the mover's promotion zone.
pub proof fn lemma_promotion_rules(
    b: Seq<i8>,
    owner: i8,
    sh: Seq<u8>,
    gh: Seq<u8>,
    variant: GameVariant,
    m: ShogiMove,
)
    requires
        b.len() == 81,
        owner == SENTE || owner == GOTE,
        legal_moves(b, owner, sh, gh, variant).contains(m),
        m.move_type == MOVE_TYPE_MOVE,
    ensures
        promotion_forced(at(b, m.fr as int, m.fc as int), m.tr as int) ==> m.promote,
        m.promote ==> promoted(kind_of(at(b, m.fr as int, m.fc as int))) is Some
            && promotion_offered(at(b, m.fr as int, m.fc as int), m.fr as int, m.tr as int),
{
    let bm = board_moves(b, owner, variant, 81);
    let dm = drop_moves(b, owner, sh, gh, variant, 8);
    let special = if variant == GameVariant::Ouke && !in_check(b, owner) {
        nin_moves(b, owner, 81) + abort_moves(b, owner, 81)
    } else {
        seq![]
    };
    lemma_concat_contains(bm + dm, special, m);
    if (bm + dm).contains(m) {
        lemma_concat_contains(bm, dm, m);
        if bm.contains(m) {
            lemma_board_moves_member(b, owner, variant, 81, m);
            let k = choose|k: int| 0 <= k < 81 && #[trigger] square_moves(b, owner, variant, k).contains(m);
            lemma_square_move_promotion(b, owner, variant, k, m);
        } else {
            lemma_drop_moves_member(b, owner, sh, gh, variant, 8, m);
        }
    } else {
        lemma_concat_contains(nin_moves(b, owner, 81), abort_moves(b, owner, 81), m);
        if nin_moves(b, owner, 81).contains(m) {
            lemma_nin_moves_member(b, owner, 81, m);
        } else {
            lemma_abort_moves_member(b, owner, 81, m);
        }
    }
}

pub(crate) proof fn lemma_contains_left<A>(x: Seq<A>, y: Seq<A>, a: A)
    requires
        x.contains(a),
    ensures
        (x + y).contains(a),
{
    let i = choose|i: int| 0 <= i < x.len() && x[i] == a;
    assert((x + y)[i] == a);
}

pub(crate) proof fn lemma_contains_right<A>(x: Seq<A>, y: Seq<A>, a: A)
    requires
        y.contains(a),
    ensures
        (x + y).contains(a),
{
    let i = choose|i: int| 0 <= i < y.len() && y[i] == a;
    assert((x + y)[x.len() + i] == a);
}

pub(crate) proof fn lemma_target_moves_has(
    b: Seq<i8>,
    p: i8,
    r: int,
    c: int,
    owner: i8,
    ts: Seq<(usize, usize)>,
    i: int,
    m: ShogiMove,
)
    requires
        0 <= i < ts.len(),
        legal_step(b, r, c, ts[i].0 as int, ts[i].1 as int, owner),
        step_variants(p, r, c, ts[i]).contains(m),
    ensures
        target_moves(b, p, r, c, owner, ts).contains(m),
    decreases ts.len(),
{
    let rest = target_moves(b, p, r, c, owner, ts.drop_last());
    let last = if legal_step(b, r, c, ts.last().0 as int, ts.last().1 as int, owner) {
        step_variants(p, r, c, ts.last())
    } else {
        seq![]
    };
    if i == ts.len() - 1 {
        lemma_contains_right(rest, last, m);
    } else {
        assert(ts.drop_last()[i] == ts[i]);
        lemma_target_moves_has(b, p, r, c, owner, ts.drop_last(), i, m);
        lemma_contains_left(rest, last, m);
    }
}

pub(crate) proof fn lemma_board_moves_has(b: Seq<i8>, owner: i8, variant: GameVariant, n: int, k: int, m: ShogiMove)
    requires
        0 <= k < n,
        square_moves(b, owner, variant, k).contains(m),
    ensures
        board_moves(b, owner, variant, n).contains(m),
    decreases n,
{
    if k == n - 1 {
        lemma_contains_right(board_moves(b, owner, variant, n - 1), square_moves(b, owner, variant, k), m);
    } else {
        lemma_board_moves_has(b, owner, variant, n - 1, k, m);
        lemma_contains_left(
            board_moves(b, owner, variant, n - 1),
            square_moves(b, owner, variant, n - 1),
            m,
        );
    }
}

/// The generator misses no board move: when a piece of the mover (other
/// than an ouke NIN, which cannot move) can step to one of its targets
/// without leaving its king in check, the move there is generated, promoted
/// when the piece would otherwise be stranded and unpromoted otherwise, and
/// also promoted wherever promotion is offered.
pub proof fn lemma_board_moves_complete(
    b: Seq<i8>,
    owner: i8,
    sh: Seq<u8>,
    gh: Seq<u8>,
    variant: GameVariant,
    k: int,
    i: int,
)
    requires
        escape_at(b, owner, k, i),
        !(variant == GameVariant::Ouke && kind_of(b[k]) == NIN),
    ensures
        ({
            let p = b[k];
            let t = piece_moves(p, row_of(k), col_of(k), b)[i];
            let legal = legal_moves(b, owner, sh, gh, variant);
            &&& legal.contains(
                ShogiMove::board_move(
                    row_of(k) as u8,
                    col_of(k) as u8,
                    t.0 as u8,
                    t.1 as u8,
                    promotion_forced(p, t.0 as int),
                ),
            )
            &&& promotion_offered(p, row_of(k), t.0 as int) ==> legal.contains(
                ShogiMove::board_move(row_of(k) as u8, col_of(k) as u8, t.0 as u8, t.1 as u8, true),
            )
        }),
{
    let p = b[k];
    let r = row_of(k);
    let c = col_of(k);
    let ts = piece_moves(p, r, c, b);
    let t = ts[i];
    let sv = step_variants(p, r, c, t);
    let m1 = ShogiMove::board_move(r as u8, c as u8, t.0 as u8, t.1 as u8, promotion_forced(p, t.0 as int));
    let m2 = ShogiMove::board_move(r as u8, c as u8, t.0 as u8, t.1 as u8, true);
    let special = if variant == GameVariant::Ouke && !in_check(b, owner) {
        nin_moves(b, owner, 81) + abort_moves(b, owner, 81)
    } else {
        seq![]
    };
    let bm = board_moves(b, owner, variant, 81);
    let dm = drop_moves(b, owner, sh, gh, variant, 8);
    assert(sv.contains(m1)) by {
        if promotion_forced(p, t.0 as int) {
            assert(sv[0] == m1);
        } else if promotion_offered(p, r, t.0 as int) {
            assert(sv[1] == m1);
        } else {
            assert(sv[0] == m1);
        }
    }
    lemma_target_moves_has(b, p, r, c, owner, ts, i, m1);
    lemma_board_moves_has(b, owner, variant, 81, k, m1);
    lemma_contains_left(bm, dm, m1);
    lemma_contains_left(bm + dm, special, m1);
    if promotion_offered(p, r, t.0 as int) {
        assert(sv[0] == m2);
        lemma_target_moves_has(b, p, r, c, owner, ts, i, m2);
        lemma_board_moves_has(b, owner, variant, 81, k, m2);
        lemma_contains_left(bm, dm, m2);
        lemma_contains_left(bm + dm, special, m2);
    }
}

pub(crate) proof fn lemma_drop_squares_has(
    b: Seq<i8>,
    pt: i8,
    owner: i8,
    sh: Seq<u8>,
    gh: Seq<u8>,
    variant: GameVariant,
    n: int,
    j: int,
)
    requires
        0 <= j < n,
        drop_ok(b, pt, owner, sh, gh, variant, j),
    ensures
        drop_squares_upto(b, pt, owner, sh, gh, variant, n).contains(
            (row_of(j) as usize, col_of(j) as usize),
        ),
    decreases n,
{
    let s = (row_of(j) as usize, col_of(j) as usize);
    let rest = drop_squares_upto(b, pt, owner, sh, gh, variant, n - 1);
    let last = if drop_ok(b, pt, owner, sh, gh, variant, n - 1) {
        seq![(row_of(n - 1) as usize, col_of(n - 1) as usize)]
    } else {
        seq![]
    };
    if j == n - 1 {
        assert(last[0] == s);
        lemma_contains_right(rest, last, s);
    } else {
        lemma_drop_squares_has(b, pt, owner, sh, gh, variant, n - 1, j);
        lemma_contains_left(rest, last, s);
    }
}

pub(crate) proof fn lemma_drop_moves_has(
    b: Seq<i8>,
    owner: i8,
    sh: Seq<u8>,
    gh: Seq<u8>,
    variant: GameVariant,
    n: int,
    h: int,
    m: ShogiMove,
)
    requires
        0 <= h < n,
        hand_for(owner, sh, gh)[h] != 0,
        drops_of(hand_kind(h), crate::check::drop_squares(b, hand_kind(h), owner, sh, gh, variant)).contains(m),
    ensures
        drop_moves(b, owner, sh, gh, variant, n).contains(m),
    decreases n,
{
    let rest = drop_moves(b, owner, sh, gh, variant, n - 1);
    let last = if hand_for(owner, sh, gh)[n - 1] != 0 {
        drops_of(hand_kind(n - 1), crate::check::drop_squares(b, hand_kind(n - 1), owner, sh, gh, variant))
    } else {
        seq![]
    };
    if h == n - 1 {
        lemma_contains_right(rest, last, m);
    } else {
        lemma_drop_moves_has(b, owner, sh, gh, variant, n - 1, h, m);
        lemma_contains_left(rest, last, m);
    }
}

/// The generator misses no drop: a kind the mover holds is offered on every
/// square where dropping it is allowed.
pub proof fn lemma_drops_complete(
    b: Seq<i8>,
    owner: i8,
    sh: Seq<u8>,
    gh: Seq<u8>,
    variant: GameVariant,
    h: int,
    j: int,
)
    requires
        0 <= h < 8,
        hand_for(owner, sh, gh)[h] != 0,
        drop_ok(b, hand_kind(h), owner, sh, gh, variant, j),
    ensures
        legal_moves(b, owner, sh, gh, variant).contains(
            ShogiMove::drop_move(hand_kind(h), row_of(j) as u8, col_of(j) as u8),
        ),
{
    let pt = hand_kind(h);
    let m = ShogiMove::drop_move(pt, row_of(j) as u8, col_of(j) as u8);
    let sqs = crate::check::drop_squares(b, pt, owner, sh, gh, variant);
    let s = (row_of(j) as usize, col_of(j) as usize);
    lemma_drop_squares_has(b, pt, owner, sh, gh, variant, 81, j);
    let x = choose|x: int| 0 <= x < sqs.len() && sqs[x] == s;
    assert(drops_of(pt, sqs)[x] == m);
    lemma_drop_moves_has(b, owner, sh, gh, variant, 8, h, m);
    let special = if variant == GameVariant::Ouke && !in_check(b, owner) {
        nin_moves(b, owner, 81) + abort_moves(b, owner, 81)
    } else {
        seq![]
    };
    let bm = board_moves(b, owner, variant, 81);
    let dm = drop_moves(b, owner, sh, gh, variant, 8);
    lemma_contains_right(bm, dm, m);
    lemma_contains_left(bm + dm, special, m);
}

pub(crate) proof fn lemma_nin_moves_has(b: Seq<i8>, owner: i8, k: int, j: int)
    requires
        0 <= j < k,
        owner_of(b[j]) == owner,
        kind_of(b[j]) == KI,
        crate::movegen::nin_promotable(b, row_of(j), col_of(j), owner),
    ensures
        nin_moves(b, owner, k).contains(ShogiMove::promote_nin_move(row_of(j) as u8, col_of(j) as u8)),
    decreases k,
{
    let m = ShogiMove::promote_nin_move(row_of(j) as u8, col_of(j) as u8);
    let last = if owner_of(b[k - 1]) == owner && kind_of(b[k - 1]) == KI
        && crate::movegen::nin_promotable(b, row_of(k - 1), col_of(k - 1), owner) {
        seq![ShogiMove::promote_nin_move(row_of(k - 1) as u8, col_of(k - 1) as u8)]
    } else {
        seq![]
    };
    if j == k - 1 {
        assert(last[0] == m);
        lemma_contains_right(nin_moves(b, owner, k - 1), last, m);
    } else {
        lemma_nin_moves_has(b, owner, k - 1, j);
        lemma_contains_left(nin_moves(b, owner, k - 1), last, m);
    }
}

pub(crate) proof fn lemma_abort_moves_has(b: Seq<i8>, owner: i8, k: int, j: int)
    requires
        0 <= j < k,
        owner_of(b[j]) == owner,
        kind_of(b[j]) == NIN,
    ensures
        abort_moves(b, owner, k).contains(ShogiMove::abort_nin_move(row_of(j) as u8, col_of(j) as u8)),
    decreases k,
{
    let m = ShogiMove::abort_nin_move(row_of(j) as u8, col_of(j) as u8);
    let last = if owner_of(b[k - 1]) == owner && kind_of(b[k - 1]) == NIN {
        seq![ShogiMove::abort_nin_move(row_of(k - 1) as u8, col_of(k - 1) as u8)]
    } else {
        seq![]
    };
    if j == k - 1 {
        assert(last[0] == m);
        lemma_contains_right(abort_moves(b, owner, k - 1), last, m);
    } else {
        lemma_abort_moves_has(b, owner, k - 1, j);
        lemma_contains_left(abort_moves(b, owner, k - 1), last, m);
    }
}

/// Checkmate detection agrees with move generation in every variant: the
/// side to move is mated exactly when each move the generator lists is an
/// ouke NIN promotion or reversion (in the normal game: when it lists none).
pub proof fn lemma_checkmate_iff_only_nin_moves(
    b: Seq<i8>,
    owner: i8,
    sh: Seq<u8>,
    gh: Seq<u8>,
    variant: GameVariant,
)
    ensures
        mate(b, owner, sh, gh, variant) <==> forall|i: int|
            0 <= i < legal_moves(b, owner, sh, gh, variant).len() ==> (#[trigger] legal_moves(
                b,
                owner,
                sh,
                gh,
                variant,
            )[i].move_type == MOVE_TYPE_PROMOTE_NIN || legal_moves(b, owner, sh, gh, variant)[i].move_type
                == MOVE_TYPE_ABORT_NIN),
{
    let legal = legal_moves(b, owner, sh, gh, variant);
    let bm = board_moves(b, owner, variant, 81);
    let dm = drop_moves(b, owner, sh, gh, variant, 8);
    let special = if variant == GameVariant::Ouke && !in_check(b, owner) {
        nin_moves(b, owner, 81) + abort_moves(b, owner, 81)
    } else {
        seq![]
    };
    assert(legal == bm + dm + special);
    lemma_board_moves_nonempty(b, owner, variant, 81);
    lemma_drop_moves_nonempty(b, owner, sh, gh, variant, 8);
    if exists|k: int, i: int| #[trigger] escape_at(b, owner, k, i) {
        let (k, i) = choose|k: int, i: int| #[trigger] escape_at(b, owner, k, i);
        assert(0 <= k < 81 && escape_at(b, owner, k, i));
    }
    if bm.len() > 0 {
        assert(bm.contains(bm[0]));
        lemma_board_moves_are_moves(b, owner, variant, bm[0]);
        assert(legal[0] == bm[0]);
    }
    if bm.len() == 0 && dm.len() > 0 {
        assert(dm.contains(dm[0]));
        lemma_drop_moves_member(b, owner, sh, gh, variant, 8, dm[0]);
        assert(legal[0] == dm[0]);
    }
    if bm.len() == 0 && dm.len() == 0 {
        assert(legal =~= special);
        assert forall|i: int| 0 <= i < legal.len() implies (#[trigger] legal[i].move_type
            == MOVE_TYPE_PROMOTE_NIN || legal[i].move_type == MOVE_TYPE_ABORT_NIN) by {
            let m = legal[i];
            assert(special.contains(m));
            lemma_concat_contains(nin_moves(b, owner, 81), abort_moves(b, owner, 81), m);
            if nin_moves(b, owner, 81).contains(m) {
                lemma_nin_moves_member(b, owner, 81, m);
            } else {
                lemma_abort_moves_member(b, owner, 81, m);
            }
        }
    }
}

proof fn lemma_empties_at_most(b: Seq<i8>)
    ensures
        empties(b) <= b.len(),
    decreases b.len(),
{
    if b.len() > 0 {
        lemma_empties_at_most(b.drop_last());
    }
}

proof fn lemma_held_entry(h: Seq<u8>, i: int)
    requires
        0 <= i < h.len(),
    ensures
        h[i] <= held(h),
    decreases h.len(),
{
    if i < h.len() - 1 {
        lemma_held_entry(h.drop_last(), i);
        assert(h.drop_last()[i] == h[i]);
    }
    lemma_held_nonnegative(h.drop_last());
}

proof fn lemma_held_nonnegative(h: Seq<u8>)
    ensures
        held(h) >= 0,
    decreases h.len(),
{
    if h.len() > 0 {
        lemma_held_nonnegative(h.drop_last());
    }
}

/// With at most 255 pieces in play, every legal move can be played without
/// a value leaving its range: a captured piece joins a count that held at
/// most 253, since the capturing and the captured piece are on the board.
proof fn lemma_legal_move_fits(
    b: Seq<i8>,
    owner: i8,
    sh: Seq<u8>,
    gh: Seq<u8>,
    variant: GameVariant,
    m: ShogiMove,
)
    requires
        b.len() == 81,
        sh.len() == 8,
        gh.len() == 8,
        owner == SENTE || owner == GOTE,
        legal_moves(b, owner, sh, gh, variant).contains(m),
        piece_count(b, sh, gh) <= 255,
    ensures
        move_fits(b, m, sh, gh, owner, variant),
{
    let h = hand_for(owner, sh, gh);
    let t = sq_index(m.tr as int, m.tc as int);
    let bm = board_moves(b, owner, variant, 81);
    let dm = drop_moves(b, owner, sh, gh, variant, 8);
    let special = if variant == GameVariant::Ouke && !in_check(b, owner) {
        nin_moves(b, owner, 81) + abort_moves(b, owner, 81)
    } else {
        seq![]
    };
    lemma_held_nonnegative(sh);
    lemma_held_nonnegative(gh);
    lemma_concat_contains(bm + dm, special, m);
    if (bm + dm).contains(m) && bm.contains(m) {
        lemma_board_moves_member(b, owner, variant, 81, m);
        let k = choose|k: int| 0 <= k < 81 && #[trigger] square_moves(b, owner, variant, k).contains(m);
        lemma_board_move_squares(b, owner, variant, k, m);
        if m.promote {
            match promoted(kind_of(b[k])) {
                Some(q) => {
                    assert(9 <= q <= 17);
                },
                None => {},
            }
        }
        match capture_slot(b[t], variant) {
            Some(i) => {
                crate::types::lemma_hand_index_roundtrip(kind_of(b[t]), 0);
                crate::types::lemma_hand_index_roundtrip(crate::types::base_of(b[t]), 0);
                crate::types::lemma_hand_index_roundtrip(KI, 0);
                assert(i < 8);
                assert(b[t] != EMPTY);
                let b1 = b.update(k, EMPTY);
                lemma_empties_update(b, k, EMPTY);
                lemma_empties_update(b1, t, EMPTY);
                lemma_empties_at_most(b1.update(t, EMPTY));
                lemma_held_entry(h, i as int);
                assert(at(b, m.tr as int, m.tc as int) == b[t]);
            },
            None => {},
        }
    } else if (bm + dm).contains(m) {
        lemma_concat_contains(bm, dm, m);
        lemma_drop_moves_member(b, owner, sh, gh, variant, 8, m);
        lemma_drops_are_held(b, owner, sh, gh, variant, m);
        let j = choose|j: int|
            0 <= j < 81 && #[trigger] drop_ok(b, m.piece, owner, sh, gh, variant, j)
                && m.move_type == MOVE_TYPE_DROP && m.tr == row_of(j) as u8 && m.tc == col_of(j) as u8
                && m == ShogiMove::drop_move(m.piece, row_of(j) as u8, col_of(j) as u8);
        lemma_index_square(j);
        crate::types::lemma_hand_index_roundtrip(m.piece, 0);
    } else {
        lemma_concat_contains(nin_moves(b, owner, 81), abort_moves(b, owner, 81), m);
        if nin_moves(b, owner, 81).contains(m) {
            lemma_nin_moves_member(b, owner, 81, m);
            let j = choose|j: int|
                0 <= j < 81 && owner_of(#[trigger] b[j]) == owner && kind_of(b[j]) == KI && m
                    == ShogiMove::promote_nin_move(row_of(j) as u8, col_of(j) as u8)
                    && crate::movegen::nin_promotable(b, row_of(j), col_of(j), owner);
            lemma_index_square(j);
        } else {
            lemma_abort_moves_member(b, owner, 81, m);
            let j = choose|j: int|
                0 <= j < 81 && owner_of(#[trigger] b[j]) == owner && kind_of(b[j]) == NIN && m
                    == ShogiMove::abort_nin_move(row_of(j) as u8, col_of(j) as u8);
            lemma_index_square(j);
        }
    }
}

/// With at most 255 pieces in play (on the board and in both hands), no
/// search of any depth can overflow a hand count: captures only move pieces
/// from the board into a hand.
pub proof fn lemma_few_pieces_fit(
    b: Seq<i8>,
    sh: Seq<u8>,
    gh: Seq<u8>,
    maximizing: bool,
    variant: GameVariant,
    depth: nat,
)
    requires
        b.len() == 81,
        sh.len() == 8,
        gh.len() == 8,
        piece_count(b, sh, gh) <= 255,
    ensures
        captures_fit(b, sh, gh, maximizing, variant, depth),
    decreases depth,
{
    reveal(captures_fit);
    if depth > 0 {
        let owner = player(maximizing);
        let legal = legal_moves(b, owner, sh, gh, variant);
        assert forall|i: int| 0 <= i < legal.len() implies {
            let m = #[trigger] legal[i];
            let a = position_after(b, m, sh, gh, owner, variant);
            move_fits(b, m, sh, gh, owner, variant) && captures_fit(
                a.0,
                a.1,
                a.2,
                !maximizing,
                variant,
                (depth - 1) as nat,
            )
        } by {
            let m = legal[i];
            assert(legal.contains(m));
            lemma_legal_move_fits(b, owner, sh, gh, variant, m);
            lemma_legal_move_keeps_pieces(b, owner, sh, gh, variant, m);
            let a = position_after(b, m, sh, gh, owner, variant);
            assert(a.0.len() == 81 && a.1.len() == 8 && a.2.len() == 8);
            lemma_few_pieces_fit(a.0, a.1, a.2, !maximizing, variant, (depth - 1) as nat);
        }
    }
}

/// The number of pieces in play: on the board and in both hands.
pub fn pieces_in_play(board: &Board, s_hand: &Hand, g_hand: &Hand) -> (n: u32)
    ensures
        n == piece_count(board@, s_hand@, g_hand@),
{
    let mut n: u32 = 0;
    let mut k: usize = 0;
    while k < 81
        invariant
            0 <= k <= 81,
            board@.len() == 81,
            n == k - empties(board@.take(k as int)),
            n <= k,
        decreases 81 - k,
    {
        proof {
            assert(board@.take(k as int + 1).drop_last() =~= board@.take(k as int));
            lemma_empties_at_most(board@.take(k as int));
        }
        if board[k] != EMPTY {
            n += 1;
        }
        k += 1;
    }
    assert(board@.take(81) =~= board@);
    let mut i: usize = 0;
    while i < 8
        invariant
            0 <= i <= 8,
            s_hand@.len() == 8,
            g_hand@.len() == 8,
            n == 81 - empties(board@) + held(s_hand@.take(i as int)) + held(g_hand@.take(i as int)),
            n <= 81 + 510 * i,
        decreases 8 - i,
    {
        proof {
            assert(s_hand@.take(i as int + 1).drop_last() =~= s_hand@.take(i as int));
            assert(g_hand@.take(i as int + 1).drop_last() =~= g_hand@.take(i as int));
        }
        n += s_hand[i] as u32 + g_hand[i] as u32;
        i += 1;
    }
    assert(s_hand@.take(8) =~= s_hand@);
    assert(g_hand@.take(8) =~= g_hand@);
    n
}

/// Every drop square is on the board and empty; it leaves the dropped piece
/// a move (no pawn or lance on the last rank, no knight on the last two
/// ranks, counted from the dropping side); a pawn is never dropped into a
/// column that already holds a pawn of the same side; and the drop does not
/// leave the dropping side in check.
pub proof fn lemma_drop_squares_rules(
    b: Seq<i8>,
    pt: i8,
    owner: i8,
    sh: Seq<u8>,
    gh: Seq<u8>,
    variant: GameVariant,
    s: (usize, usize),
)
    requires
        crate::check::drop_squares(b, pt, owner, sh, gh, variant).contains(s),
    ensures
        s.0 < 9 && s.1 < 9,
        b[s.0 * 9 + s.1] == 0,
        owner == SENTE || owner == GOTE,
        owner == SENTE && (pt == crate::types::FU || pt == crate::types::KY) ==> s.0 != 0,
        owner == GOTE && (pt == crate::types::FU || pt == crate::types::KY) ==> s.0 != 8,
        owner == SENTE && pt == crate::types::KE ==> s.0 >= 2,
        owner == GOTE && pt == crate::types::KE ==> s.0 <= 6,
        pt == crate::types::FU ==> forall|r: int| 0 <= r < 9 ==> #[trigger] b[r * 9 + s.1] != owner,
        !in_check(b.update(s.0 * 9 + s.1, (owner * pt) as i8), owner),
{
    lemma_drop_squares_member(b, pt, owner, sh, gh, variant, 81, s);
    let j = choose|j: int|
        0 <= j < 81 && #[trigger] drop_ok(b, pt, owner, sh, gh, variant, j) && s == (
            row_of(j) as usize,
            col_of(j) as usize,
        );
    lemma_index_square(j);
    assert(s.0 * 9 + s.1 == j);
    if pt == crate::types::FU {
        assert forall|r: int| 0 <= r < 9 implies #[trigger] b[r * 9 + s.1] != owner by {
            assert(sq_index(r, s.1 as int) == r * 9 + s.1);
            if b[r * 9 + s.1] == owner {
                assert(b[sq_index(r, col_of(j))] == owner * crate::types::FU);
                assert(crate::check::pawn_in_column(b, col_of(j), owner));
            }
        }
    }
}

proof fn lemma_square_move_bounds(b: Seq<i8>, owner: i8, variant: GameVariant, k: int, m: ShogiMove)
    requires
        b.len() == 81,
        owner == SENTE || owner == GOTE,
        0 <= k < 81,
        square_moves(b, owner, variant, k).contains(m),
    ensures
        m.fr < 9 && m.fc < 9 && m.tr < 9 && m.tc < 9,
        m.fr * 9 + m.fc == k,
        owner_of(b[k]) == owner,
{
    lemma_index_square(k);
    let p = b[k];
    let r = row_of(k);
    let c = col_of(k);
    let ts = piece_moves(p, r, c, b);
    lemma_target_moves_member(b, p, r, c, owner, ts, m);
    let i = choose|i: int|
        0 <= i < ts.len() && legal_step(b, r, c, ts[i].0 as int, ts[i].1 as int, owner)
            && #[trigger] step_variants(p, r, c, ts[i]).contains(m);
    let tt = ts[i];
    lemma_piece_moves_free(p, r, c, b);
    assert(on_board(tt.0 as int, tt.1 as int));
    assert(m.fr == r as u8 && m.fc == c as u8 && m.tr == tt.0 as u8 && m.tc == tt.1 as u8);
}

/// Promotion by rank, for each generated board move of the mover's piece:
/// a move promotes only a piece that has a promoted form, and only when it
/// starts or ends in the three far ranks (rows 0 to 2 for sente, 6 to 8 for
/// gote); a pawn or lance reaching the last rank, or a knight reaching the
/// last two, always promotes.
pub proof fn lemma_promotion_by_rank(
    b: Seq<i8>,
    owner: i8,
    sh: Seq<u8>,
    gh: Seq<u8>,
    variant: GameVariant,
    m: ShogiMove,
)
    requires
        b.len() == 81,
        owner == SENTE || owner == GOTE,
        legal_moves(b, owner, sh, gh, variant).contains(m),
        m.move_type == MOVE_TYPE_MOVE,
    ensures
        m.fr < 9 && m.fc < 9 && m.tr < 9 && m.tc < 9,
        owner_of(b[m.fr * 9 + m.fc]) == owner,
        m.promote ==> crate::rules::promotes_into(kind_of(b[m.fr * 9 + m.fc])) != 0,
        m.promote && owner == SENTE ==> m.fr <= 2 || m.tr <= 2,
        m.promote && owner == GOTE ==> m.fr >= 6 || m.tr >= 6,
        owner == SENTE && (kind_of(b[m.fr * 9 + m.fc]) == crate::types::FU || kind_of(b[m.fr * 9 + m.fc])
            == crate::types::KY) && m.tr == 0 ==> m.promote,
        owner == SENTE && kind_of(b[m.fr * 9 + m.fc]) == crate::types::KE && m.tr <= 1 ==> m.promote,
        owner == GOTE && (kind_of(b[m.fr * 9 + m.fc]) == crate::types::FU || kind_of(b[m.fr * 9 + m.fc])
            == crate::types::KY) && m.tr == 8 ==> m.promote,
        owner == GOTE && kind_of(b[m.fr * 9 + m.fc]) == crate::types::KE && m.tr >= 7 ==> m.promote,
{
    let bm = board_moves(b, owner, variant, 81);
    let dm = drop_moves(b, owner, sh, gh, variant, 8);
    let special = if variant == GameVariant::Ouke && !in_check(b, owner) {
        nin_moves(b, owner, 81) + abort_moves(b, owner, 81)
    } else {
        seq![]
    };
    lemma_concat_contains(bm + dm, special, m);
    if (bm + dm).contains(m) && bm.contains(m) {
        lemma_board_moves_member(b, owner, variant, 81, m);
        let k = choose|k: int| 0 <= k < 81 && #[trigger] square_moves(b, owner, variant, k).contains(m);
        lemma_square_move_bounds(b, owner, variant, k, m);
        lemma_square_move_promotion(b, owner, variant, k, m);
        assert(at(b, m.fr as int, m.fc as int) == b[m.fr * 9 + m.fc]);
    } else if (bm + dm).contains(m) {
        lemma_concat_contains(bm, dm, m);
        lemma_drop_moves_member(b, owner, sh, gh, variant, 8, m);
    } else {
        lemma_concat_contains(nin_moves(b, owner, 81), abort_moves(b, owner, 81), m);
        if nin_moves(b, owner, 81).contains(m) {
            lemma_nin_moves_member(b, owner, 81, m);
        } else {
            lemma_abort_moves_member(b, owner, 81, m);
        }
    }
}

/// The ouke NIN moves the generator lists: only in ouke and only when the
/// mover is not in check; a gold becomes a NIN only when it stands next to
/// (at most one row and one column from) a king of the mover's, and a NIN
/// turns back only when it is the mover's.
pub proof fn lemma_nin_moves_rules(
    b: Seq<i8>,
    owner: i8,
    sh: Seq<u8>,
    gh: Seq<u8>,
    variant: GameVariant,
    m: ShogiMove,
)
    requires
        b.len() == 81,
        owner == SENTE || owner == GOTE,
        legal_moves(b, owner, sh, gh, variant).contains(m),
        m.move_type == MOVE_TYPE_PROMOTE_NIN || m.move_type == MOVE_TYPE_ABORT_NIN,
    ensures
        variant == GameVariant::Ouke,
        !in_check(b, owner),
        m.tr < 9 && m.tc < 9,
        m.move_type == MOVE_TYPE_PROMOTE_NIN ==> b[m.tr * 9 + m.tc] == owner * KI && exists|j: int|
            0 <= j < 81 && b[j] == owner * OU && -1 <= #[trigger] (j / 9) - m.tr <= 1 && -1 <= j % 9
                - m.tc <= 1,
        m.move_type == MOVE_TYPE_ABORT_NIN ==> b[m.tr * 9 + m.tc] == owner * NIN,
{
    let bm = board_moves(b, owner, variant, 81);
    let dm = drop_moves(b, owner, sh, gh, variant, 8);
    let special = if variant == GameVariant::Ouke && !in_check(b, owner) {
        nin_moves(b, owner, 81) + abort_moves(b, owner, 81)
    } else {
        seq![]
    };
    lemma_concat_contains(bm + dm, special, m);
    if (bm + dm).contains(m) {
        lemma_concat_contains(bm, dm, m);
        if bm.contains(m) {
            lemma_board_moves_are_moves(b, owner, variant, m);
        } else {
            lemma_drop_moves_member(b, owner, sh, gh, variant, 8, m);
        }
    } else {
        lemma_concat_contains(nin_moves(b, owner, 81), abort_moves(b, owner, 81), m);
        if nin_moves(b, owner, 81).contains(m) {
            lemma_nin_moves_member(b, owner, 81, m);
            let j = choose|j: int|
                0 <= j < 81 && owner_of(#[trigger] b[j]) == owner && kind_of(b[j]) == KI && m
                    == ShogiMove::promote_nin_move(row_of(j) as u8, col_of(j) as u8)
                    && crate::movegen::nin_promotable(b, row_of(j), col_of(j), owner);
            lemma_index_square(j);
            crate::symmetry::lemma_king_from_spec(b, owner, 0);
            let ks = crate::check::king_square(b, owner)->0;
            let i = choose|i: int|
                0 <= i < 81 && is_king_of(#[trigger] b[i], owner) && ks == (row_of(i) as usize, col_of(i) as usize);
            lemma_index_square(i);
            assert(-1 <= (i / 9) - m.tr <= 1 && -1 <= i % 9 - m.tc <= 1);
        } else {
            lemma_abort_moves_member(b, owner, 81, m);
            let j = choose|j: int|
                0 <= j < 81 && owner_of(#[trigger] b[j]) == owner && kind_of(b[j]) == NIN && m
                    == ShogiMove::abort_nin_move(row_of(j) as u8, col_of(j) as u8);
            lemma_index_square(j);
        }
    }
}

} // verus!
