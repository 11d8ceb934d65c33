//! Pieces move alike to the left and to the right: reflecting the board
//! across its centre file maps the destinations of a piece onto those of the
//! same piece on the reflected square.
use vstd::prelude::*;

use crate::check::{col_of, row_of};
use crate::legality::{free_targets, lemma_all_free, lemma_slide_free};
use crate::movegen::{
    at, bishop_lines, forward, gold_steps, king_steps, ko_reach, line, on_board, piece_moves,
    reach3, rook_lines, slide, step_to,
};
use crate::eval::{board_score, evaluation, square_score};
use crate::symmetry::lemma_concat_all;
use crate::types::{kind_of, owner_of, sq_index, GameVariant};

verus! {

/// The board reflected across its centre file.
pub open spec fn reflected(b: Seq<i8>) -> Seq<i8> {
    Seq::new(81, |k: int| b[sq_index(row_of(k), 8 - col_of(k))])
}

/// The square facing `t` across the centre file.
pub open spec fn refl(t: (usize, usize)) -> (usize, usize) {
    (t.0, (8 - t.1) as usize)
}

pub open spec fn refl_all(s: Seq<(usize, usize)>) -> Seq<(usize, usize)> {
    s.map_values(|t: (usize, usize)| refl(t))
}

pub(crate) proof fn lemma_reflected_at(b: Seq<i8>, r: int, c: int)
    requires
        on_board(r, c),
    ensures
        at(reflected(b), r, 8 - c) == at(b, r, c),
{
    let k = sq_index(r, 8 - c);
    vstd::arithmetic::div_mod::lemma_fundamental_div_mod_converse(k, 9, r, 8 - c);
}

proof fn lemma_step_reflect(b: Seq<i8>, o: i8, nr: int, nc: int)
    ensures
        step_to(reflected(b), o, nr, 8 - nc) == refl_all(step_to(b, o, nr, nc)),
{
    if on_board(nr, nc) {
        lemma_reflected_at(b, nr, nc);
    }
    assert(step_to(reflected(b), o, nr, 8 - nc) =~= refl_all(step_to(b, o, nr, nc)));
}

proof fn lemma_slide_reflect(b: Seq<i8>, o: i8, nr: int, nc: int, dr: int, dc: int, n: nat)
    ensures
        slide(reflected(b), o, nr, 8 - nc, dr, -dc, n) == refl_all(slide(b, o, nr, nc, dr, dc, n)),
    decreases n,
{
    if n > 0 && on_board(nr, nc) {
        lemma_reflected_at(b, nr, nc);
        lemma_slide_reflect(b, o, nr + dr, nc + dc, dr, dc, (n - 1) as nat);
        assert(8 - nc + -dc == 8 - (nc + dc));
        let rest = slide(b, o, nr + dr, nc + dc, dr, dc, (n - 1) as nat);
        assert(refl_all(seq![(nr as usize, nc as usize)] + rest) =~= seq![
            (nr as usize, (8 - nc) as usize),
        ] + refl_all(rest));
    }
    assert(slide(reflected(b), o, nr, 8 - nc, dr, -dc, n) =~= refl_all(
        slide(b, o, nr, nc, dr, dc, n),
    ));
}

proof fn lemma_refl_contains(s: Seq<(usize, usize)>, b: Seq<i8>, o: i8, t: (usize, usize))
    requires
        free_targets(s, b, o),
        on_board(t.0 as int, t.1 as int),
    ensures
        refl_all(s).contains(refl(t)) <==> s.contains(t),
{
    if s.contains(t) {
        let i = choose|i: int| 0 <= i < s.len() && s[i] == t;
        assert(refl_all(s)[i] == refl(t));
    }
    if refl_all(s).contains(refl(t)) {
        let i = choose|i: int| 0 <= i < refl_all(s).len() && refl_all(s)[i] == refl(t);
        assert(on_board(s[i].0 as int, s[i].1 as int));
        assert(s[i] == t);
    }
}

proof fn lemma_step_r(b: Seq<i8>, o: i8, nr: int, nc: int, mc: int, t: (usize, usize))
    requires
        on_board(t.0 as int, t.1 as int),
        mc == 8 - nc,
    ensures
        step_to(reflected(b), o, nr, mc).contains(refl(t)) <==> step_to(b, o, nr, nc).contains(t),
{
    lemma_step_reflect(b, o, nr, nc);
    lemma_all_free(b, o, nr, nc);
    lemma_refl_contains(step_to(b, o, nr, nc), b, o, t);
}

proof fn lemma_line_r(b: Seq<i8>, o: i8, r: int, c: int, dr: int, dc: int, mc: int, mdc: int, t: (usize, usize))
    requires
        on_board(t.0 as int, t.1 as int),
        mc == 8 - c,
        mdc == -dc,
    ensures
        line(reflected(b), o, r, mc, dr, mdc).contains(refl(t)) <==> line(b, o, r, c, dr, dc).contains(t),
{
    lemma_slide_reflect(b, o, r + dr, c + dc, dr, dc, 9);
    assert(mc + mdc == 8 - (c + dc));
    lemma_slide_free(b, o, r + dr, c + dc, dr, dc, 9);
    lemma_refl_contains(line(b, o, r, c, dr, dc), b, o, t);
}

proof fn lemma_reach_r(b: Seq<i8>, o: i8, r: int, c: int, dr: int, dc: int, mc: int, mdc: int, t: (usize, usize))
    requires
        on_board(t.0 as int, t.1 as int),
        mc == 8 - c,
        mdc == -dc,
    ensures
        reach3(reflected(b), o, r, mc, dr, mdc).contains(refl(t)) <==> reach3(b, o, r, c, dr, dc).contains(t),
{
    lemma_slide_reflect(b, o, r + dr, c + dc, dr, dc, 3);
    assert(mc + mdc == 8 - (c + dc));
    lemma_slide_free(b, o, r + dr, c + dc, dr, dc, 3);
    lemma_refl_contains(reach3(b, o, r, c, dr, dc), b, o, t);
}

proof fn lemma_bishop_r(b: Seq<i8>, o: i8, r: int, c: int, t: (usize, usize))
    requires
        on_board(t.0 as int, t.1 as int),
    ensures
        bishop_lines(reflected(b), o, r, 8 - c).contains(refl(t)) <==> bishop_lines(b, o, r, c).contains(t),
{
    let mc = 8 - c;
    lemma_line_r(b, o, r, c, 1, 1, mc, -1, t);
    lemma_line_r(b, o, r, c, 1, -1, mc, 1, t);
    lemma_line_r(b, o, r, c, -1, 1, mc, -1, t);
    lemma_line_r(b, o, r, c, -1, -1, mc, 1, t);
    lemma_concat_all();
}

proof fn lemma_rook_r(b: Seq<i8>, o: i8, r: int, c: int, t: (usize, usize))
    requires
        on_board(t.0 as int, t.1 as int),
    ensures
        rook_lines(reflected(b), o, r, 8 - c).contains(refl(t)) <==> rook_lines(b, o, r, c).contains(t),
{
    let mc = 8 - c;
    lemma_line_r(b, o, r, c, 1, 0, mc, 0, t);
    lemma_line_r(b, o, r, c, -1, 0, mc, 0, t);
    lemma_line_r(b, o, r, c, 0, 1, mc, -1, t);
    lemma_line_r(b, o, r, c, 0, -1, mc, 1, t);
    lemma_concat_all();
}

proof fn lemma_king_r(b: Seq<i8>, o: i8, r: int, c: int, t: (usize, usize))
    requires
        on_board(t.0 as int, t.1 as int),
    ensures
        king_steps(reflected(b), o, r, 8 - c).contains(refl(t)) <==> king_steps(b, o, r, c).contains(t),
{
    let mc = 8 - c;
    lemma_step_r(b, o, r - 1, c - 1, mc + 1, t);
    lemma_step_r(b, o, r - 1, c, mc, t);
    lemma_step_r(b, o, r - 1, c + 1, mc - 1, t);
    lemma_step_r(b, o, r, c - 1, mc + 1, t);
    lemma_step_r(b, o, r, c + 1, mc - 1, t);
    lemma_step_r(b, o, r + 1, c - 1, mc + 1, t);
    lemma_step_r(b, o, r + 1, c, mc, t);
    lemma_step_r(b, o, r + 1, c + 1, mc - 1, t);
    lemma_concat_all();
}

proof fn lemma_gold_r(b: Seq<i8>, o: i8, r: int, c: int, d: int, t: (usize, usize))
    requires
        on_board(t.0 as int, t.1 as int),
    ensures
        gold_steps(reflected(b), o, r, 8 - c, d).contains(refl(t)) <==> gold_steps(b, o, r, c, d).contains(t),
{
    let mc = 8 - c;
    lemma_step_r(b, o, r + d, c - 1, mc + 1, t);
    lemma_step_r(b, o, r + d, c, mc, t);
    lemma_step_r(b, o, r + d, c + 1, mc - 1, t);
    lemma_step_r(b, o, r, c - 1, mc + 1, t);
    lemma_step_r(b, o, r, c + 1, mc - 1, t);
    lemma_step_r(b, o, r - d, c, mc, t);
    lemma_concat_all();
}

proof fn lemma_ko_r(b: Seq<i8>, o: i8, r: int, c: int, t: (usize, usize))
    requires
        on_board(t.0 as int, t.1 as int),
    ensures
        ko_reach(reflected(b), o, r, 8 - c).contains(refl(t)) <==> ko_reach(b, o, r, c).contains(t),
{
    let mc = 8 - c;
    lemma_reach_r(b, o, r, c, -1, -1, mc, 1, t);
    lemma_reach_r(b, o, r, c, -1, 0, mc, 0, t);
    lemma_reach_r(b, o, r, c, -1, 1, mc, -1, t);
    lemma_reach_r(b, o, r, c, 0, -1, mc, 1, t);
    lemma_reach_r(b, o, r, c, 0, 1, mc, -1, t);
    lemma_reach_r(b, o, r, c, 1, -1, mc, 1, t);
    lemma_reach_r(b, o, r, c, 1, 0, mc, 0, t);
    lemma_reach_r(b, o, r, c, 1, 1, mc, -1, t);
    lemma_concat_all();
}

/// A piece reaches a square exactly when the same piece, on the square
/// facing it across the centre file of the reflected board, reaches the
/// reflected square.
pub proof fn lemma_piece_moves_reflect(p: i8, r: int, c: int, b: Seq<i8>, t: (usize, usize))
    requires
        on_board(t.0 as int, t.1 as int),
    ensures
        piece_moves(p, r, 8 - c, reflected(b)).contains(refl(t)) <==> piece_moves(p, r, c, b).contains(t),
{
    let o = owner_of(p);
    let a = kind_of(p);
    let d = forward(o);
    let mc = 8 - c;
    lemma_concat_all();
    if a == crate::types::FU {
        lemma_step_r(b, o, r + d, c, mc, t);
    } else if a == crate::types::KY {
        lemma_line_r(b, o, r, c, d, 0, mc, 0, t);
    } else if a == crate::types::KE {
        lemma_step_r(b, o, r + 2 * d, c - 1, mc + 1, t);
        lemma_step_r(b, o, r + 2 * d, c + 1, mc - 1, t);
    } else if a == crate::types::GI {
        lemma_step_r(b, o, r + d, c - 1, mc + 1, t);
        lemma_step_r(b, o, r + d, c, mc, t);
        lemma_step_r(b, o, r + d, c + 1, mc - 1, t);
        lemma_step_r(b, o, r - d, c - 1, mc + 1, t);
        lemma_step_r(b, o, r - d, c + 1, mc - 1, t);
    } else if a == crate::types::KI || a == crate::types::TO || a == crate::types::NY || a
        == crate::types::NK || a == crate::types::NG {
        lemma_gold_r(b, o, r, c, d, t);
    } else if a == crate::types::KA {
        lemma_bishop_r(b, o, r, c, t);
    } else if a == crate::types::HI {
        lemma_rook_r(b, o, r, c, t);
    } else if a == crate::types::UM {
        lemma_bishop_r(b, o, r, c, t);
        lemma_step_r(b, o, r - 1, c, mc, t);
        lemma_step_r(b, o, r + 1, c, mc, t);
        lemma_step_r(b, o, r, c - 1, mc + 1, t);
        lemma_step_r(b, o, r, c + 1, mc - 1, t);
    } else if a == crate::types::RY {
        lemma_rook_r(b, o, r, c, t);
        lemma_step_r(b, o, r - 1, c - 1, mc + 1, t);
        lemma_step_r(b, o, r - 1, c + 1, mc - 1, t);
        lemma_step_r(b, o, r + 1, c - 1, mc + 1, t);
        lemma_step_r(b, o, r + 1, c + 1, mc - 1, t);
    } else if a == crate::types::KO {
        lemma_ko_r(b, o, r, c, t);
    } else if a == crate::types::WK {
        lemma_bishop_r(b, o, r, c, t);
        lemma_rook_r(b, o, r, c, t);
    } else if a == crate::types::OU || a == crate::types::HM {
        lemma_king_r(b, o, r, c, t);
    }
}

proof fn lemma_square_score_reflect(b: Seq<i8>, variant: GameVariant, k: int)
    requires
        0 <= k < 81,
    ensures
        square_score(reflected(b), variant, k) == square_score(
            b,
            variant,
            sq_index(row_of(k), 8 - col_of(k)),
        ),
{
    crate::legality::lemma_index_square(k);
    let r = row_of(k);
    let c = col_of(k);
    let j = sq_index(r, 8 - c);
    vstd::arithmetic::div_mod::lemma_fundamental_div_mod_converse(j, 9, r, 8 - c);
    let p = b[j];
    assert(reflected(b)[k] == p);
    let front = r + forward(owner_of(p));
    if on_board(front, 8 - c) {
        lemma_reflected_at(b, front, 8 - c);
    }
}

proof fn lemma_row_score_reflect(b: Seq<i8>, variant: GameVariant, r: int, j: int)
    requires
        0 <= r < 9,
        0 <= j <= 9,
    ensures
        board_score(reflected(b), variant, 9 * r + j) - board_score(reflected(b), variant, 9 * r)
            == board_score(b, variant, 9 * r + 9) - board_score(b, variant, 9 * r + 9 - j),
    decreases j,
{
    if j > 0 {
        lemma_row_score_reflect(b, variant, r, j - 1);
        let k = 9 * r + j - 1;
        vstd::arithmetic::div_mod::lemma_fundamental_div_mod_converse(k, 9, r, j - 1);
        lemma_square_score_reflect(b, variant, k);
        assert(sq_index(r, 8 - (j - 1)) == 9 * r + 9 - j);
    }
}

proof fn lemma_board_score_reflect(b: Seq<i8>, variant: GameVariant, r: int)
    requires
        0 <= r <= 9,
    ensures
        board_score(reflected(b), variant, 9 * r) == board_score(b, variant, 9 * r),
    decreases r,
{
    if r > 0 {
        lemma_board_score_reflect(b, variant, r - 1);
        lemma_row_score_reflect(b, variant, r - 1, 9);
    }
}

/// The static evaluation does not change when the board is reflected
/// across its centre file.
pub proof fn lemma_evaluation_reflect(b: Seq<i8>, sh: Seq<u8>, gh: Seq<u8>, variant: GameVariant)
    ensures
        evaluation(reflected(b), sh, gh, variant) == evaluation(b, sh, gh, variant),
{
    lemma_board_score_reflect(b, variant, 9);
}

} // verus!
