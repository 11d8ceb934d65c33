//! The rules treat both players alike: turning the board round (or over,
//! top to bottom) and swapping the owners of all pieces maps each player's
//! moves, checks and evaluation onto the other's.
use vstd::prelude::*;

use crate::check::{
    after_step, checker_at, col_of, drop_ok, drop_squares_upto, empties, escape_at, hand_for, in_check,
    is_king_of, king_from, king_square, legal_step, mate, pawn_in_column, row_of,
    some_drop,
};
use crate::eval::{evaluation, mirrored};
use crate::reflection::{lemma_evaluation_reflect, lemma_piece_moves_reflect, refl, reflected};
use crate::legality::{free_targets, lemma_index_square, lemma_slide_free};
use crate::movegen::{
    abort_moves, at, bishop_lines, board_moves, drop_moves, forward, gold_steps, king_steps, ko_reach,
    legal_moves, line, nin_moves, nin_promotable, on_board, piece_moves, promotion_forced, promotion_offered, reach3, rook_lines, slide, square_moves, step_to,
    step_variants,
};
use crate::types::{
    hand_kind, hand_slot, kind_of, owner_of, sq_index, GameVariant, ShogiMove, EMPTY, FU, GOTE,
    MOVE_TYPE_MOVE, SENTE,
};

verus! {

/// The square facing `t` across the centre of the board.
pub open spec fn flip(t: (usize, usize)) -> (usize, usize) {
    ((8 - t.0) as usize, (8 - t.1) as usize)
}

pub open spec fn flip_all(s: Seq<(usize, usize)>) -> Seq<(usize, usize)> {
    s.map_values(|t: (usize, usize)| flip(t))
}

/// No square holds -128, the one value without an opposite.
pub open spec fn no_min(b: Seq<i8>) -> bool {
    b.len() == 81 && forall|k: int| 0 <= k < 81 ==> #[trigger] b[k] != i8::MIN
}

proof fn lemma_mirrored_at(b: Seq<i8>, r: int, c: int)
    requires
        no_min(b),
        on_board(r, c),
    ensures
        at(mirrored(b), 8 - r, 8 - c) == (-at(b, r, c)) as i8,
        owner_of(at(mirrored(b), 8 - r, 8 - c)) == -owner_of(at(b, r, c)),
        kind_of(at(mirrored(b), 8 - r, 8 - c)) == kind_of(at(b, r, c)),
        (at(mirrored(b), 8 - r, 8 - c) == EMPTY) == (at(b, r, c) == EMPTY),
{
    assert(sq_index(8 - r, 8 - c) == 80 - sq_index(r, c));
    assert(b[sq_index(r, c)] != i8::MIN);
}

proof fn lemma_step_flip(b: Seq<i8>, o: i8, nr: int, nc: int)
    requires
        no_min(b),
        -1 <= o <= 1,
    ensures
        step_to(mirrored(b), (-o) as i8, 8 - nr, 8 - nc) == flip_all(step_to(b, o, nr, nc)),
{
    if on_board(nr, nc) {
        lemma_mirrored_at(b, nr, nc);
    }
    assert(step_to(mirrored(b), (-o) as i8, 8 - nr, 8 - nc) =~= flip_all(step_to(b, o, nr, nc)));
}

proof fn lemma_slide_flip(b: Seq<i8>, o: i8, nr: int, nc: int, dr: int, dc: int, n: nat)
    requires
        no_min(b),
        -1 <= o <= 1,
    ensures
        slide(mirrored(b), (-o) as i8, 8 - nr, 8 - nc, -dr, -dc, n) == flip_all(
            slide(b, o, nr, nc, dr, dc, n),
        ),
    decreases n,
{
    let mb = mirrored(b);
    if n > 0 && on_board(nr, nc) {
        lemma_mirrored_at(b, nr, nc);
        lemma_slide_flip(b, o, nr + dr, nc + dc, dr, dc, (n - 1) as nat);
        assert(8 - nr + -dr == 8 - (nr + dr));
        assert(8 - nc + -dc == 8 - (nc + dc));
        let rest = slide(b, o, nr + dr, nc + dc, dr, dc, (n - 1) as nat);
        assert(flip_all(seq![(nr as usize, nc as usize)] + rest) =~= seq![
            ((8 - nr) as usize, (8 - nc) as usize),
        ] + flip_all(rest));
    }
    assert(slide(mb, (-o) as i8, 8 - nr, 8 - nc, -dr, -dc, n) =~= flip_all(
        slide(b, o, nr, nc, dr, dc, n),
    ));
}

proof fn lemma_flip_contains(s: Seq<(usize, usize)>, b: Seq<i8>, o: i8, t: (usize, usize))
    requires
        free_targets(s, b, o),
        on_board(t.0 as int, t.1 as int),
    ensures
        flip_all(s).contains(flip(t)) <==> s.contains(t),
{
    if s.contains(t) {
        let i = choose|i: int| 0 <= i < s.len() && s[i] == t;
        assert(flip_all(s)[i] == flip(t));
    }
    if flip_all(s).contains(flip(t)) {
        let i = choose|i: int| 0 <= i < flip_all(s).len() && flip_all(s)[i] == flip(t);
        assert(on_board(s[i].0 as int, s[i].1 as int));
        assert(s[i] == t);
    }
}

proof fn lemma_concat_contains_iff(x: Seq<(usize, usize)>, y: Seq<(usize, usize)>, a: (usize, usize))
    ensures
        (x + y).contains(a) <==> x.contains(a) || y.contains(a),
{
    if x.contains(a) {
        let i = choose|i: int| 0 <= i < x.len() && x[i] == a;
        assert((x + y)[i] == a);
    }
    if y.contains(a) {
        let i = choose|i: int| 0 <= i < y.len() && y[i] == a;
        assert((x + y)[x.len() + i] == a);
    }
    if (x + y).contains(a) {
        let i = choose|i: int| 0 <= i < (x + y).len() && (x + y)[i] == a;
        if i < x.len() {
            assert(x[i] == a);
        } else {
            assert(y[i - x.len()] == a);
        }
    }
}

pub(crate) proof fn lemma_concat_all()
    ensures
        forall|x: Seq<(usize, usize)>, y: Seq<(usize, usize)>, a: (usize, usize)|
            #[trigger] (x + y).contains(a) <==> x.contains(a) || y.contains(a),
{
    assert forall|x: Seq<(usize, usize)>, y: Seq<(usize, usize)>, a: (usize, usize)|
        #[trigger] (x + y).contains(a) <==> x.contains(a) || y.contains(a) by {
        lemma_concat_contains_iff(x, y, a);
    }
}

proof fn lemma_step_c(b: Seq<i8>, o: i8, nr: int, nc: int, mr: int, mc: int, t: (usize, usize))
    requires
        no_min(b),
        -1 <= o <= 1,
        on_board(t.0 as int, t.1 as int),
        mr == 8 - nr,
        mc == 8 - nc,
    ensures
        step_to(mirrored(b), (-o) as i8, mr, mc).contains(flip(t)) <==> step_to(b, o, nr, nc).contains(t),
{
    lemma_step_flip(b, o, nr, nc);
    crate::legality::lemma_all_free(b, o, nr, nc);
    lemma_flip_contains(step_to(b, o, nr, nc), b, o, t);
}

proof fn lemma_line_c(
    b: Seq<i8>,
    o: i8,
    r: int,
    c: int,
    dr: int,
    dc: int,
    mr: int,
    mc: int,
    mdr: int,
    mdc: int,
    t: (usize, usize),
)
    requires
        no_min(b),
        -1 <= o <= 1,
        on_board(t.0 as int, t.1 as int),
        mr == 8 - r,
        mc == 8 - c,
        mdr == -dr,
        mdc == -dc,
    ensures
        line(mirrored(b), (-o) as i8, mr, mc, mdr, mdc).contains(flip(t)) <==> line(
            b,
            o,
            r,
            c,
            dr,
            dc,
        ).contains(t),
{
    lemma_slide_flip(b, o, r + dr, c + dc, dr, dc, 9);
    assert(mr + mdr == 8 - (r + dr));
    assert(mc + mdc == 8 - (c + dc));
    lemma_slide_free(b, o, r + dr, c + dc, dr, dc, 9);
    lemma_flip_contains(line(b, o, r, c, dr, dc), b, o, t);
}

proof fn lemma_reach_c(
    b: Seq<i8>,
    o: i8,
    r: int,
    c: int,
    dr: int,
    dc: int,
    mr: int,
    mc: int,
    mdr: int,
    mdc: int,
    t: (usize, usize),
)
    requires
        no_min(b),
        -1 <= o <= 1,
        on_board(t.0 as int, t.1 as int),
        mr == 8 - r,
        mc == 8 - c,
        mdr == -dr,
        mdc == -dc,
    ensures
        reach3(mirrored(b), (-o) as i8, mr, mc, mdr, mdc).contains(flip(t)) <==> reach3(
            b,
            o,
            r,
            c,
            dr,
            dc,
        ).contains(t),
{
    lemma_slide_flip(b, o, r + dr, c + dc, dr, dc, 3);
    assert(mr + mdr == 8 - (r + dr));
    assert(mc + mdc == 8 - (c + dc));
    lemma_slide_free(b, o, r + dr, c + dc, dr, dc, 3);
    lemma_flip_contains(reach3(b, o, r, c, dr, dc), b, o, t);
}

proof fn lemma_king_flip(b: Seq<i8>, o: i8, r: int, c: int, t: (usize, usize))
    requires
        no_min(b),
        -1 <= o <= 1,
        on_board(t.0 as int, t.1 as int),
    ensures
        king_steps(mirrored(b), (-o) as i8, 8 - r, 8 - c).contains(flip(t)) <==> king_steps(
            b,
            o,
            r,
            c,
        ).contains(t),
{
    let mr = 8 - r;
    let mc = 8 - c;
    lemma_step_c(b, o, r + 1, c + 1, mr - 1, mc - 1, t);
    lemma_step_c(b, o, r + 1, c, mr - 1, mc, t);
    lemma_step_c(b, o, r + 1, c - 1, mr - 1, mc + 1, t);
    lemma_step_c(b, o, r, c + 1, mr, mc - 1, t);
    lemma_step_c(b, o, r, c - 1, mr, mc + 1, t);
    lemma_step_c(b, o, r - 1, c + 1, mr + 1, mc - 1, t);
    lemma_step_c(b, o, r - 1, c, mr + 1, mc, t);
    lemma_step_c(b, o, r - 1, c - 1, mr + 1, mc + 1, t);
    lemma_concat_all();
}

proof fn lemma_gold_flip(b: Seq<i8>, o: i8, r: int, c: int, d: int, md: int, t: (usize, usize))
    requires
        no_min(b),
        -1 <= o <= 1,
        on_board(t.0 as int, t.1 as int),
        md == -d,
    ensures
        gold_steps(mirrored(b), (-o) as i8, 8 - r, 8 - c, md).contains(flip(t)) <==> gold_steps(
            b,
            o,
            r,
            c,
            d,
        ).contains(t),
{
    let mr = 8 - r;
    let mc = 8 - c;
    lemma_step_c(b, o, r + d, c + 1, mr + md, mc - 1, t);
    lemma_step_c(b, o, r + d, c, mr + md, mc, t);
    lemma_step_c(b, o, r + d, c - 1, mr + md, mc + 1, t);
    lemma_step_c(b, o, r, c + 1, mr, mc - 1, t);
    lemma_step_c(b, o, r, c - 1, mr, mc + 1, t);
    lemma_step_c(b, o, r - d, c, mr - md, mc, t);
    lemma_concat_all();
}

proof fn lemma_bishop_flip(b: Seq<i8>, o: i8, r: int, c: int, t: (usize, usize))
    requires
        no_min(b),
        -1 <= o <= 1,
        on_board(t.0 as int, t.1 as int),
    ensures
        bishop_lines(mirrored(b), (-o) as i8, 8 - r, 8 - c).contains(flip(t)) <==> bishop_lines(
            b,
            o,
            r,
            c,
        ).contains(t),
{
    let mr = 8 - r;
    let mc = 8 - c;
    lemma_line_c(b, o, r, c, 1, 1, mr, mc, -1, -1, t);
    lemma_line_c(b, o, r, c, 1, -1, mr, mc, -1, 1, t);
    lemma_line_c(b, o, r, c, -1, 1, mr, mc, 1, -1, t);
    lemma_line_c(b, o, r, c, -1, -1, mr, mc, 1, 1, t);
    lemma_concat_all();
}

proof fn lemma_rook_flip(b: Seq<i8>, o: i8, r: int, c: int, t: (usize, usize))
    requires
        no_min(b),
        -1 <= o <= 1,
        on_board(t.0 as int, t.1 as int),
    ensures
        rook_lines(mirrored(b), (-o) as i8, 8 - r, 8 - c).contains(flip(t)) <==> rook_lines(
            b,
            o,
            r,
            c,
        ).contains(t),
{
    let mr = 8 - r;
    let mc = 8 - c;
    lemma_line_c(b, o, r, c, 1, 0, mr, mc, -1, 0, t);
    lemma_line_c(b, o, r, c, -1, 0, mr, mc, 1, 0, t);
    lemma_line_c(b, o, r, c, 0, 1, mr, mc, 0, -1, t);
    lemma_line_c(b, o, r, c, 0, -1, mr, mc, 0, 1, t);
    lemma_concat_all();
}

proof fn lemma_ko_flip(b: Seq<i8>, o: i8, r: int, c: int, t: (usize, usize))
    requires
        no_min(b),
        -1 <= o <= 1,
        on_board(t.0 as int, t.1 as int),
    ensures
        ko_reach(mirrored(b), (-o) as i8, 8 - r, 8 - c).contains(flip(t)) <==> ko_reach(
            b,
            o,
            r,
            c,
        ).contains(t),
{
    let mr = 8 - r;
    let mc = 8 - c;
    lemma_reach_c(b, o, r, c, 1, 1, mr, mc, -1, -1, t);
    lemma_reach_c(b, o, r, c, 1, 0, mr, mc, -1, 0, t);
    lemma_reach_c(b, o, r, c, 1, -1, mr, mc, -1, 1, t);
    lemma_reach_c(b, o, r, c, 0, 1, mr, mc, 0, -1, t);
    lemma_reach_c(b, o, r, c, 0, -1, mr, mc, 0, 1, t);
    lemma_reach_c(b, o, r, c, -1, 1, mr, mc, 1, -1, t);
    lemma_reach_c(b, o, r, c, -1, 0, mr, mc, 1, 0, t);
    lemma_reach_c(b, o, r, c, -1, -1, mr, mc, 1, 1, t);
    lemma_concat_all();
}

/// A piece attacks a square exactly when its mirror image, on the mirrored
/// board, attacks the mirrored square.
pub proof fn lemma_piece_moves_flip(p: i8, r: int, c: int, b: Seq<i8>, t: (usize, usize))
    requires
        no_min(b),
        p != i8::MIN,
        on_board(t.0 as int, t.1 as int),
    ensures
        piece_moves((-p) as i8, 8 - r, 8 - c, mirrored(b)).contains(flip(t)) <==> piece_moves(
            p,
            r,
            c,
            b,
        ).contains(t),
{
    let o = owner_of(p);
    let oo = (-o) as i8;
    let q = (-p) as i8;
    let a = kind_of(p);
    let d = forward(o);
    let md = forward(oo);
    let mr = 8 - r;
    let mc = 8 - c;
    assert(owner_of(q) == oo);
    assert(kind_of(q) == a);
    if o == 0 {
        assert(a == 0);
    } else {
        assert(md == -d);
        lemma_concat_all();
        if a == crate::types::FU {
            lemma_step_c(b, o, r + d, c, mr + md, mc, t);
        } else if a == crate::types::KY {
            lemma_line_c(b, o, r, c, d, 0, mr, mc, md, 0, t);
        } else if a == crate::types::KE {
            lemma_step_c(b, o, r + 2 * d, c - 1, mr + 2 * md, mc + 1, t);
            lemma_step_c(b, o, r + 2 * d, c + 1, mr + 2 * md, mc - 1, t);
        } else if a == crate::types::GI {
            lemma_step_c(b, o, r + d, c - 1, mr + md, mc + 1, t);
            lemma_step_c(b, o, r + d, c, mr + md, mc, t);
            lemma_step_c(b, o, r + d, c + 1, mr + md, mc - 1, t);
            lemma_step_c(b, o, r - d, c - 1, mr - md, mc + 1, t);
            lemma_step_c(b, o, r - d, c + 1, mr - md, mc - 1, t);
        } else if a == crate::types::KI || a == crate::types::TO || a == crate::types::NY || a
            == crate::types::NK || a == crate::types::NG {
            lemma_gold_flip(b, o, r, c, d, md, t);
        } else if a == crate::types::KA {
            lemma_bishop_flip(b, o, r, c, t);
        } else if a == crate::types::HI {
            lemma_rook_flip(b, o, r, c, t);
        } else if a == crate::types::UM {
            lemma_bishop_flip(b, o, r, c, t);
            lemma_step_c(b, o, r - 1, c, mr + 1, mc, t);
            lemma_step_c(b, o, r + 1, c, mr - 1, mc, t);
            lemma_step_c(b, o, r, c - 1, mr, mc + 1, t);
            lemma_step_c(b, o, r, c + 1, mr, mc - 1, t);
        } else if a == crate::types::RY {
            lemma_rook_flip(b, o, r, c, t);
            lemma_step_c(b, o, r - 1, c - 1, mr + 1, mc + 1, t);
            lemma_step_c(b, o, r - 1, c + 1, mr + 1, mc - 1, t);
            lemma_step_c(b, o, r + 1, c - 1, mr - 1, mc + 1, t);
            lemma_step_c(b, o, r + 1, c + 1, mr - 1, mc - 1, t);
        } else if a == crate::types::KO {
            lemma_ko_flip(b, o, r, c, t);
        } else if a == crate::types::WK {
            lemma_bishop_flip(b, o, r, c, t);
            lemma_rook_flip(b, o, r, c, t);
        } else if a == crate::types::OU || a == crate::types::HM {
            lemma_king_flip(b, o, r, c, t);
        }
    }
}

/// `owner` has at most one king on the board.
pub open spec fn single_king(b: Seq<i8>, owner: i8) -> bool {
    forall|i: int, j: int|
        0 <= i < 81 && 0 <= j < 81 && is_king_of(#[trigger] b[i], owner) && is_king_of(
            #[trigger] b[j],
            owner,
        ) ==> i == j
}

pub(crate) proof fn lemma_king_from_spec(b: Seq<i8>, o: i8, k: int)
    requires
        0 <= k <= 81,
    ensures
        king_from(b, o, k) matches Some(s) ==> exists|j: int|
            k <= j < 81 && is_king_of(#[trigger] b[j], o) && s == (row_of(j) as usize, col_of(j) as usize),
        king_from(b, o, k) is None ==> forall|j: int| k <= j < 81 ==> !is_king_of(#[trigger] b[j], o),
    decreases 81 - k,
{
    if k < 81 {
        lemma_king_from_spec(b, o, k + 1);
        if is_king_of(b[k], o) {
            assert(is_king_of(b[k], o));
        }
    }
}

/// Where `owner` has at most one king, the king square is that king's.
proof fn lemma_single_king_square(b: Seq<i8>, o: i8, j: int)
    requires
        single_king(b, o),
        0 <= j < 81,
        is_king_of(b[j], o),
    ensures
        king_square(b, o) == Some((row_of(j) as usize, col_of(j) as usize)),
{
    lemma_king_from_spec(b, o, 0);
    if king_square(b, o) is None {
        assert(!is_king_of(b[j], o));
    }
    let s = king_square(b, o)->0;
    let i = choose|i: int| 0 <= i < 81 && is_king_of(#[trigger] b[i], o) && s == (row_of(i) as usize, col_of(i) as usize);
    assert(i == j);
}

/// Whether a player is in check does not depend on their colour: on the
/// mirrored board (turned round, owners exchanged) the other player is in
/// check exactly when this one was. Stated for boards where the player has
/// at most one king (with two, each board examines its first king, and
/// those differ) and no square holds -128.
pub proof fn lemma_in_check_symmetric(b: Seq<i8>, owner: i8)
    requires
        no_min(b),
        owner == SENTE || owner == GOTE,
        single_king(b, owner),
    ensures
        in_check(mirrored(b), (-owner) as i8) == in_check(b, owner),
{
    let mb = mirrored(b);
    let oo = (-owner) as i8;
    assert forall|k: int| 0 <= k < 81 implies (#[trigger] mb[80 - k] == (-b[k]) as i8 && is_king_of(
        mb[80 - k],
        oo,
    ) == is_king_of(b[k], owner)) by {
        assert(b[k] != i8::MIN);
    }
    assert(single_king(mb, oo)) by {
        assert forall|i: int, j: int|
            0 <= i < 81 && 0 <= j < 81 && is_king_of(#[trigger] mb[i], oo) && is_king_of(
                #[trigger] mb[j],
                oo,
            ) implies i == j by {
            assert(mb[80 - (80 - i)] == mb[i]);
            assert(is_king_of(b[80 - i], owner));
            assert(mb[80 - (80 - j)] == mb[j]);
            assert(is_king_of(b[80 - j], owner));
        }
    }
    lemma_king_from_spec(b, owner, 0);
    lemma_king_from_spec(mb, oo, 0);
    if king_square(b, owner) is None {
        if king_square(mb, oo) is Some {
            let s = king_square(mb, oo)->0;
            let i = choose|i: int|
                0 <= i < 81 && is_king_of(#[trigger] mb[i], oo) && s == (row_of(i) as usize, col_of(i) as usize);
            assert(mb[80 - (80 - i)] == mb[i]);
            assert(is_king_of(b[80 - i], owner));
        }
    } else {
        let ks = king_square(b, owner)->0;
        let j = choose|j: int|
            0 <= j < 81 && is_king_of(#[trigger] b[j], owner) && ks == (row_of(j) as usize, col_of(j) as usize);
        crate::eval::lemma_mirror_square(j);
        assert(is_king_of(mb[80 - j], oo));
        lemma_single_king_square(mb, oo, 80 - j);
        let kms = flip(ks);
        assert(king_square(mb, oo) == Some(kms));
        assert(on_board(ks.0 as int, ks.1 as int));
        assert forall|k: int| #[trigger] checker_at(b, owner, k) == checker_at(mb, oo, 80 - k) by {
            if 0 <= k < 81 {
                crate::eval::lemma_mirror_square(k);
                assert(b[k] != i8::MIN);
                lemma_piece_moves_flip(b[k], row_of(k), col_of(k), b, ks);
            }
        }
        if in_check(b, owner) {
            let k = choose|k: int| #[trigger] checker_at(b, owner, k);
            assert(checker_at(mb, oo, 80 - k));
        }
        if in_check(mb, oo) {
            let k = choose|k: int| #[trigger] checker_at(mb, oo, k);
            assert(checker_at(b, owner, 80 - k));
        }
    }
}

proof fn lemma_mirrored_twice(b: Seq<i8>)
    requires
        no_min(b),
    ensures
        no_min(mirrored(b)),
        mirrored(mirrored(b)) == b,
{
    assert forall|k: int| 0 <= k < 81 implies #[trigger] mirrored(b)[k] != i8::MIN by {
        assert(b[80 - k] != i8::MIN);
    }
    assert(mirrored(mirrored(b)) =~= b);
}

proof fn lemma_mirrored_update(b: Seq<i8>, j: int, v: i8)
    requires
        no_min(b),
        0 <= j < 81,
        v != i8::MIN,
    ensures
        no_min(b.update(j, v)),
        mirrored(b.update(j, v)) == mirrored(b).update(80 - j, (-v) as i8),
{
    assert(mirrored(b.update(j, v)) =~= mirrored(b).update(80 - j, (-v) as i8));
}

proof fn lemma_after_step_mirror(b: Seq<i8>, r: int, c: int, tr: int, tc: int)
    requires
        no_min(b),
        on_board(r, c),
        on_board(tr, tc),
    ensures
        no_min(after_step(b, r, c, tr, tc)),
        mirrored(after_step(b, r, c, tr, tc)) == after_step(mirrored(b), 8 - r, 8 - c, 8 - tr, 8 - tc),
{
    let f = sq_index(r, c);
    let t = sq_index(tr, tc);
    assert(sq_index(8 - r, 8 - c) == 80 - f);
    assert(sq_index(8 - tr, 8 - tc) == 80 - t);
    assert(b[f] != i8::MIN);
    lemma_mirrored_update(b, t, b[f]);
    lemma_mirrored_update(b.update(t, b[f]), f, EMPTY);
    assert(mirrored(b)[80 - f] == (-b[f]) as i8);
}

proof fn lemma_single_king_after_step(b: Seq<i8>, o: i8, r: int, c: int, tr: int, tc: int)
    requires
        b.len() == 81,
        single_king(b, o),
        on_board(r, c),
        on_board(tr, tc),
    ensures
        single_king(after_step(b, r, c, tr, tc), o),
{
    let f = sq_index(r, c);
    let t = sq_index(tr, tc);
    let b2 = after_step(b, r, c, tr, tc);
    assert forall|i: int, j: int|
        0 <= i < 81 && 0 <= j < 81 && is_king_of(#[trigger] b2[i], o) && is_king_of(#[trigger] b2[j], o)
        implies i == j by {
        let si = if i == t && i != f { f } else { i };
        let sj = if j == t && j != f { f } else { j };
        assert(is_king_of(b[si], o));
        assert(is_king_of(b[sj], o));
        assert(si == sj);
    }
}

proof fn lemma_single_king_update(b: Seq<i8>, o: i8, j: int, v: i8)
    requires
        b.len() == 81,
        single_king(b, o),
        0 <= j < 81,
        !is_king_of(v, o),
    ensures
        single_king(b.update(j, v), o),
{
    let b2 = b.update(j, v);
    assert forall|x: int, y: int|
        0 <= x < 81 && 0 <= y < 81 && is_king_of(#[trigger] b2[x], o) && is_king_of(#[trigger] b2[y], o)
        implies x == y by {
        assert(is_king_of(b[x], o));
        assert(is_king_of(b[y], o));
    }
}

proof fn lemma_single_king_mirror(b: Seq<i8>, o: i8)
    requires
        no_min(b),
        o == SENTE || o == GOTE,
        single_king(b, o),
    ensures
        single_king(mirrored(b), (-o) as i8),
{
    let mb = mirrored(b);
    let oo = (-o) as i8;
    assert forall|i: int, j: int|
        0 <= i < 81 && 0 <= j < 81 && is_king_of(#[trigger] mb[i], oo) && is_king_of(#[trigger] mb[j], oo)
        implies i == j by {
        assert(b[80 - i] != i8::MIN);
        assert(b[80 - j] != i8::MIN);
        assert(is_king_of(b[80 - i], o));
        assert(is_king_of(b[80 - j], o));
    }
}

/// A step is legal for a player exactly when its mirror image is legal for
/// the other player on the mirrored board.
proof fn lemma_legal_step_flip(b: Seq<i8>, o: i8, r: int, c: int, tr: int, tc: int)
    requires
        no_min(b),
        o == SENTE || o == GOTE,
        single_king(b, o),
        on_board(r, c),
        on_board(tr, tc),
    ensures
        legal_step(mirrored(b), 8 - r, 8 - c, 8 - tr, 8 - tc, (-o) as i8) == legal_step(b, r, c, tr, tc, o),
{
    lemma_after_step_mirror(b, r, c, tr, tc);
    lemma_single_king_after_step(b, o, r, c, tr, tc);
    lemma_in_check_symmetric(after_step(b, r, c, tr, tc), o);
}

/// The mirror image of a move: a board move's squares, and the target
/// square of any other move, turned round.
pub open spec fn flip_move(m: ShogiMove) -> ShogiMove {
    if m.move_type == MOVE_TYPE_MOVE {
        ShogiMove {
            move_type: m.move_type,
            fr: (8 - m.fr) as u8,
            fc: (8 - m.fc) as u8,
            tr: (8 - m.tr) as u8,
            tc: (8 - m.tc) as u8,
            promote: m.promote,
            piece: m.piece,
        }
    } else {
        ShogiMove {
            move_type: m.move_type,
            fr: m.fr,
            fc: m.fc,
            tr: (8 - m.tr) as u8,
            tc: (8 - m.tc) as u8,
            promote: m.promote,
            piece: m.piece,
        }
    }
}

proof fn lemma_step_variants_flip(p: i8, r: int, c: int, t: (usize, usize), m: ShogiMove)
    requires
        owner_of(p) == SENTE || owner_of(p) == GOTE,
        p != i8::MIN,
        on_board(r, c),
        on_board(t.0 as int, t.1 as int),
        step_variants(p, r, c, t).contains(m),
    ensures
        step_variants((-p) as i8, 8 - r, 8 - c, flip(t)).contains(flip_move(m)),
{
    let q = (-p) as i8;
    assert(kind_of(q) == kind_of(p));
    assert(owner_of(q) == -owner_of(p));
    assert(promotion_offered(q, 8 - r, 8 - t.0) == promotion_offered(p, r, t.0 as int));
    assert(promotion_forced(q, 8 - t.0) == promotion_forced(p, t.0 as int));
    let sv = step_variants(p, r, c, t);
    let sw = step_variants(q, 8 - r, 8 - c, flip(t));
    let x = choose|x: int| 0 <= x < sv.len() && sv[x] == m;
    assert(sw[x] == flip_move(m));
}

/// A legal board move of a piece maps to a legal board move of its mirror
/// image on the mirrored board.
proof fn lemma_square_move_flip(b: Seq<i8>, o: i8, variant: GameVariant, k: int, m: ShogiMove)
    requires
        no_min(b),
        o == SENTE || o == GOTE,
        single_king(b, o),
        0 <= k < 81,
        square_moves(b, o, variant, k).contains(m),
    ensures
        square_moves(mirrored(b), (-o) as i8, variant, 80 - k).contains(flip_move(m)),
{
    let mb = mirrored(b);
    let oo = (-o) as i8;
    let p = b[k];
    let q = (-p) as i8;
    crate::eval::lemma_mirror_square(k);
    let r = row_of(k);
    let c = col_of(k);
    assert(p != i8::MIN);
    assert(mb[80 - k] == q);
    assert(owner_of(p) == o);
    let ts = piece_moves(p, r, c, b);
    crate::legality::lemma_target_moves_member(b, p, r, c, o, ts, m);
    let i = choose|i: int|
        0 <= i < ts.len() && legal_step(b, r, c, ts[i].0 as int, ts[i].1 as int, o)
            && #[trigger] step_variants(p, r, c, ts[i]).contains(m);
    let t = ts[i];
    crate::legality::lemma_piece_moves_free(p, r, c, b);
    assert(on_board(t.0 as int, t.1 as int));
    lemma_piece_moves_flip(p, r, c, b, t);
    let us = piece_moves(q, 8 - r, 8 - c, mb);
    assert(us.contains(flip(t))) by {
        assert(ts[i] == t);
    }
    let i2 = choose|i2: int| 0 <= i2 < us.len() && us[i2] == flip(t);
    lemma_legal_step_flip(b, o, r, c, t.0 as int, t.1 as int);
    lemma_step_variants_flip(p, r, c, t, m);
    assert(row_of(80 - k) == 8 - r && col_of(80 - k) == 8 - c);
    crate::legality::lemma_target_moves_has(mb, q, 8 - r, 8 - c, oo, us, i2, flip_move(m));
}

/// A legal step of a piece maps to a legal step of its mirror image.
proof fn lemma_escape_flip(b: Seq<i8>, o: i8, k: int, i: int)
    requires
        no_min(b),
        o == SENTE || o == GOTE,
        single_king(b, o),
        escape_at(b, o, k, i),
    ensures
        exists|i2: int| #[trigger] escape_at(mirrored(b), (-o) as i8, 80 - k, i2),
{
    let mb = mirrored(b);
    let oo = (-o) as i8;
    let p = b[k];
    let q = (-p) as i8;
    crate::eval::lemma_mirror_square(k);
    let r = row_of(k);
    let c = col_of(k);
    assert(p != i8::MIN);
    assert(mb[80 - k] == q);
    let ts = piece_moves(p, r, c, b);
    let t = ts[i];
    crate::legality::lemma_piece_moves_free(p, r, c, b);
    assert(on_board(t.0 as int, t.1 as int));
    lemma_piece_moves_flip(p, r, c, b, t);
    let us = piece_moves(q, 8 - r, 8 - c, mb);
    assert(ts.contains(t));
    let i2 = choose|i2: int| 0 <= i2 < us.len() && us[i2] == flip(t);
    lemma_legal_step_flip(b, o, r, c, t.0 as int, t.1 as int);
    assert(row_of(80 - k) == 8 - r && col_of(80 - k) == 8 - c);
    assert(escape_at(mb, oo, 80 - k, i2));
}

proof fn lemma_pawn_column_flip(b: Seq<i8>, o: i8, c: int)
    requires
        no_min(b),
        o == SENTE || o == GOTE,
        0 <= c < 9,
    ensures
        pawn_in_column(mirrored(b), 8 - c, (-o) as i8) == pawn_in_column(b, c, o),
{
    let mb = mirrored(b);
    if pawn_in_column(b, c, o) {
        let r = choose|r: int| 0 <= r < 9 && #[trigger] b[sq_index(r, c)] == o * FU;
        assert(sq_index(8 - r, 8 - c) == 80 - sq_index(r, c));
        assert(mb[sq_index(8 - r, 8 - c)] == (-o) * FU);
    }
    if pawn_in_column(mb, 8 - c, (-o) as i8) {
        let r = choose|r: int| 0 <= r < 9 && #[trigger] mb[sq_index(r, 8 - c)] == ((-o) as i8) * FU;
        assert(sq_index(r, 8 - c) == 80 - sq_index(8 - r, c));
        assert(b[sq_index(8 - r, c)] != i8::MIN);
        assert(b[sq_index(8 - r, c)] == o * FU);
    }
}

proof fn lemma_drop_squares_nonempty(
    b: Seq<i8>,
    pt: i8,
    o: i8,
    sh: Seq<u8>,
    gh: Seq<u8>,
    variant: GameVariant,
)
    ensures
        drop_squares_upto(b, pt, o, sh, gh, variant, 81).len() > 0 <==> exists|j: int|
            0 <= j < 81 && #[trigger] drop_ok(b, pt, o, sh, gh, variant, j),
{
    let ds = drop_squares_upto(b, pt, o, sh, gh, variant, 81);
    if ds.len() > 0 {
        assert(ds.contains(ds[0]));
        crate::legality::lemma_drop_squares_member(b, pt, o, sh, gh, variant, 81, ds[0]);
    }
    if exists|j: int| 0 <= j < 81 && #[trigger] drop_ok(b, pt, o, sh, gh, variant, j) {
        let j = choose|j: int| 0 <= j < 81 && #[trigger] drop_ok(b, pt, o, sh, gh, variant, j);
        crate::legality::lemma_drop_squares_has(b, pt, o, sh, gh, variant, 81, j);
    }
}

/// Whether a drop is allowed does not depend on the dropping player's
/// colour.
proof fn lemma_drop_ok_flip(
    b: Seq<i8>,
    pt: i8,
    o: i8,
    sh: Seq<u8>,
    gh: Seq<u8>,
    variant: GameVariant,
    j: int,
)
    requires
        no_min(b),
        single_king(b, SENTE),
        single_king(b, GOTE),
        o == SENTE || o == GOTE,
        hand_slot(pt) is Some,
    ensures
        drop_ok(mirrored(b), pt, (-o) as i8, gh, sh, variant, 80 - j) == drop_ok(b, pt, o, sh, gh, variant, j),
    decreases empties(b), 0int, 0int,
{
    let mb = mirrored(b);
    let oo = (-o) as i8;
    if 0 <= j < 81 {
        crate::eval::lemma_mirror_square(j);
        assert(b[j] != i8::MIN);
        assert(mb[80 - j] == (-b[j]) as i8);
        lemma_pawn_column_flip(b, o, col_of(j));
        if b[j] == EMPTY {
            let bp = b.update(j, (o * FU) as i8);
            lemma_mirrored_update(b, j, (o * FU) as i8);
            assert(mb.update(80 - j, (oo * FU) as i8) == mirrored(bp));
            lemma_single_king_update(b, SENTE, j, (o * FU) as i8);
            lemma_single_king_update(b, GOTE, j, (o * FU) as i8);
            lemma_in_check_symmetric(bp, oo);
            assert((-oo) as i8 == o);
            crate::check::lemma_empties_fill(b, j, (o * FU) as i8);
            lemma_mate_flip(bp, oo, sh, gh, variant);
            let bq = b.update(j, (o * pt) as i8);
            lemma_mirrored_update(b, j, (o * pt) as i8);
            assert(mb.update(80 - j, (oo * pt) as i8) == mirrored(bq));
            lemma_single_king_update(b, o, j, (o * pt) as i8);
            lemma_in_check_symmetric(bq, o);
        }
    }
}

/// Whether a player holds a droppable piece does not depend on colour.
proof fn lemma_some_drop_flip(
    b: Seq<i8>,
    o: i8,
    sh: Seq<u8>,
    gh: Seq<u8>,
    variant: GameVariant,
    n: int,
)
    requires
        no_min(b),
        single_king(b, SENTE),
        single_king(b, GOTE),
        o == SENTE || o == GOTE,
        n <= 8,
    ensures
        some_drop(mirrored(b), (-o) as i8, gh, sh, variant, n) == some_drop(b, o, sh, gh, variant, n),
    decreases empties(b), 1int, n,
{
    let mb = mirrored(b);
    let oo = (-o) as i8;
    if n > 0 {
        lemma_some_drop_flip(b, o, sh, gh, variant, n - 1);
        let pt = hand_kind(n - 1);
        crate::types::lemma_hand_index_roundtrip(pt, n - 1);
        assert(hand_for(oo, gh, sh) == hand_for(o, sh, gh));
        lemma_drop_squares_nonempty(b, pt, o, sh, gh, variant);
        lemma_drop_squares_nonempty(mb, pt, oo, gh, sh, variant);
        if exists|j: int| 0 <= j < 81 && #[trigger] drop_ok(b, pt, o, sh, gh, variant, j) {
            let j = choose|j: int| 0 <= j < 81 && #[trigger] drop_ok(b, pt, o, sh, gh, variant, j);
            lemma_drop_ok_flip(b, pt, o, sh, gh, variant, j);
            assert(drop_ok(mb, pt, oo, gh, sh, variant, 80 - j));
        }
        if exists|j: int| 0 <= j < 81 && #[trigger] drop_ok(mb, pt, oo, gh, sh, variant, j) {
            let j = choose|j: int| 0 <= j < 81 && #[trigger] drop_ok(mb, pt, oo, gh, sh, variant, j);
            lemma_drop_ok_flip(b, pt, o, sh, gh, variant, 80 - j);
            assert(drop_ok(b, pt, o, sh, gh, variant, 80 - j));
        }
    }
}

/// Checkmate treats both players alike: a player is mated exactly when the
/// other player is mated on the mirrored board with the hands exchanged.
/// Stated for boards where no square holds -128 and each player has at most
/// one king.
pub proof fn lemma_mate_flip(b: Seq<i8>, o: i8, sh: Seq<u8>, gh: Seq<u8>, variant: GameVariant)
    requires
        no_min(b),
        single_king(b, SENTE),
        single_king(b, GOTE),
        o == SENTE || o == GOTE,
    ensures
        mate(mirrored(b), (-o) as i8, gh, sh, variant) == mate(b, o, sh, gh, variant),
    decreases empties(b), 2int, 0int,
{
    let mb = mirrored(b);
    let oo = (-o) as i8;
    lemma_mirrored_twice(b);
    lemma_single_king_mirror(b, o);
    assert((-oo) as i8 == o);
    if exists|k: int, i: int| #[trigger] escape_at(b, o, k, i) {
        let (k, i) = choose|k: int, i: int| #[trigger] escape_at(b, o, k, i);
        lemma_escape_flip(b, o, k, i);
        let i2 = choose|i2: int| #[trigger] escape_at(mb, oo, 80 - k, i2);
        assert(escape_at(mb, oo, 80 - k, i2));
    }
    if exists|k: int, i: int| #[trigger] escape_at(mb, oo, k, i) {
        let (k, i) = choose|k: int, i: int| #[trigger] escape_at(mb, oo, k, i);
        lemma_escape_flip(mb, oo, k, i);
        let i2 = choose|i2: int| #[trigger] escape_at(mirrored(mb), o, 80 - k, i2);
        assert(escape_at(b, o, 80 - k, i2));
    }
    lemma_some_drop_flip(b, o, sh, gh, variant, 8);
}

proof fn lemma_king_square_flip(b: Seq<i8>, o: i8)
    requires
        no_min(b),
        o == SENTE || o == GOTE,
        single_king(b, o),
    ensures
        king_square(mirrored(b), (-o) as i8) == (match king_square(b, o) {
            Some(ks) => Some(flip(ks)),
            None => None,
        }),
{
    let mb = mirrored(b);
    let oo = (-o) as i8;
    lemma_single_king_mirror(b, o);
    lemma_king_from_spec(b, o, 0);
    lemma_king_from_spec(mb, oo, 0);
    assert forall|k: int| 0 <= k < 81 implies is_king_of(#[trigger] mb[80 - k], oo) == is_king_of(b[k], o) by {
        assert(b[k] != i8::MIN);
    }
    if king_square(b, o) is None {
        if king_square(mb, oo) is Some {
            let s = king_square(mb, oo)->0;
            let i = choose|i: int|
                0 <= i < 81 && is_king_of(#[trigger] mb[i], oo) && s == (row_of(i) as usize, col_of(i) as usize);
            assert(mb[80 - (80 - i)] == mb[i]);
            assert(is_king_of(b[80 - i], o));
        }
    } else {
        let ks = king_square(b, o)->0;
        let j = choose|j: int|
            0 <= j < 81 && is_king_of(#[trigger] b[j], o) && ks == (row_of(j) as usize, col_of(j) as usize);
        crate::eval::lemma_mirror_square(j);
        assert(is_king_of(mb[80 - j], oo));
        lemma_single_king_square(mb, oo, 80 - j);
    }
}

proof fn lemma_nin_promotable_flip(b: Seq<i8>, o: i8, j: int)
    requires
        no_min(b),
        o == SENTE || o == GOTE,
        single_king(b, o),
        0 <= j < 81,
    ensures
        nin_promotable(mirrored(b), row_of(80 - j), col_of(80 - j), (-o) as i8) == nin_promotable(
            b,
            row_of(j),
            col_of(j),
            o,
        ),
{
    crate::eval::lemma_mirror_square(j);
    lemma_mirrored_at(b, row_of(j), col_of(j));
    lemma_king_square_flip(b, o);
    lemma_king_from_spec(b, o, 0);
    if king_square(b, o) is Some {
        let ks = king_square(b, o)->0;
        let i = choose|i: int|
            0 <= i < 81 && is_king_of(#[trigger] b[i], o) && ks == (row_of(i) as usize, col_of(i) as usize);
        lemma_index_square(i);
    }
}

/// Every legal move of a player maps to a legal move of the other player
/// on the mirrored board (hands exchanged).
proof fn lemma_legal_move_flip(
    b: Seq<i8>,
    o: i8,
    sh: Seq<u8>,
    gh: Seq<u8>,
    variant: GameVariant,
    m: ShogiMove,
)
    requires
        no_min(b),
        single_king(b, SENTE),
        single_king(b, GOTE),
        o == SENTE || o == GOTE,
        legal_moves(b, o, sh, gh, variant).contains(m),
    ensures
        legal_moves(mirrored(b), (-o) as i8, gh, sh, variant).contains(flip_move(m)),
{
    let mb = mirrored(b);
    let oo = (-o) as i8;
    let fm = flip_move(m);
    let bm = board_moves(b, o, variant, 81);
    let dm = drop_moves(b, o, sh, gh, variant, 8);
    let special = if variant == GameVariant::Ouke && !in_check(b, o) {
        nin_moves(b, o, 81) + abort_moves(b, o, 81)
    } else {
        seq![]
    };
    let mbm = board_moves(mb, oo, variant, 81);
    let mdm = drop_moves(mb, oo, gh, sh, variant, 8);
    let mspecial = if variant == GameVariant::Ouke && !in_check(mb, oo) {
        nin_moves(mb, oo, 81) + abort_moves(mb, oo, 81)
    } else {
        seq![]
    };
    lemma_in_check_symmetric(b, o);
    crate::legality::lemma_concat_contains(bm + dm, special, m);
    if (bm + dm).contains(m) {
        crate::legality::lemma_concat_contains(bm, dm, m);
        if bm.contains(m) {
            crate::legality::lemma_board_moves_member(b, o, variant, 81, m);
            let k = choose|k: int| 0 <= k < 81 && #[trigger] square_moves(b, o, variant, k).contains(m);
            lemma_square_move_flip(b, o, variant, k, m);
            crate::legality::lemma_board_moves_has(mb, oo, variant, 81, 80 - k, fm);
            crate::legality::lemma_contains_left(mbm, mdm, fm);
            crate::legality::lemma_contains_left(mbm + mdm, mspecial, fm);
        } else {
            crate::legality::lemma_drop_moves_member(b, o, sh, gh, variant, 8, m);
            crate::legality::lemma_drops_are_held(b, o, sh, gh, variant, m);
            let pt = m.piece;
            let i = hand_slot(pt)->Some_0;
            crate::types::lemma_hand_index_roundtrip(pt, 0);
            let j = choose|j: int|
                0 <= j < 81 && #[trigger] drop_ok(b, m.piece, o, sh, gh, variant, j)
                    && m.move_type == crate::types::MOVE_TYPE_DROP && m.tr == row_of(j) as u8 && m.tc
                    == col_of(j) as u8 && m == ShogiMove::drop_move(m.piece, row_of(j) as u8, col_of(j) as u8);
            crate::eval::lemma_mirror_square(j);
            lemma_drop_ok_flip(b, pt, o, sh, gh, variant, j);
            assert(hand_for(oo, gh, sh) == hand_for(o, sh, gh));
            crate::legality::lemma_drops_complete(mb, oo, gh, sh, variant, i as int, 80 - j);
            assert(fm == ShogiMove::drop_move(pt, row_of(80 - j) as u8, col_of(80 - j) as u8));
        }
    } else {
        lemma_single_king_mirror(b, o);
        crate::legality::lemma_concat_contains(nin_moves(b, o, 81), abort_moves(b, o, 81), m);
        if nin_moves(b, o, 81).contains(m) {
            crate::legality::lemma_nin_moves_member(b, o, 81, m);
            let j = choose|j: int|
                0 <= j < 81 && owner_of(#[trigger] b[j]) == o && kind_of(b[j]) == crate::types::KI && m
                    == ShogiMove::promote_nin_move(row_of(j) as u8, col_of(j) as u8)
                    && nin_promotable(b, row_of(j), col_of(j), o);
            crate::eval::lemma_mirror_square(j);
            assert(b[j] != i8::MIN);
            assert(mb[80 - j] == (-b[j]) as i8);
            lemma_nin_promotable_flip(b, o, j);
            crate::legality::lemma_nin_moves_has(mb, oo, 81, 80 - j);
            crate::legality::lemma_contains_left(nin_moves(mb, oo, 81), abort_moves(mb, oo, 81), fm);
        } else {
            crate::legality::lemma_abort_moves_member(b, o, 81, m);
            let j = choose|j: int|
                0 <= j < 81 && owner_of(#[trigger] b[j]) == o && kind_of(b[j]) == crate::types::NIN && m
                    == ShogiMove::abort_nin_move(row_of(j) as u8, col_of(j) as u8);
            crate::eval::lemma_mirror_square(j);
            assert(b[j] != i8::MIN);
            assert(mb[80 - j] == (-b[j]) as i8);
            crate::legality::lemma_abort_moves_has(mb, oo, 81, 80 - j);
            crate::legality::lemma_contains_right(nin_moves(mb, oo, 81), abort_moves(mb, oo, 81), fm);
        }
        crate::legality::lemma_contains_right(mbm + mdm, mspecial, fm);
    }
}

/// The rules treat both players alike: turning the board round, exchanging
/// the owners of all pieces and the two hands maps each legal move of one
/// player onto a legal move of the other, and back. Stated for boards where
/// no square holds -128 and each player has at most one king (the rules
/// examine a player's first king only).
pub proof fn lemma_legal_moves_symmetric(
    b: Seq<i8>,
    owner: i8,
    sh: Seq<u8>,
    gh: Seq<u8>,
    variant: GameVariant,
    m: ShogiMove,
)
    requires
        no_min(b),
        single_king(b, SENTE),
        single_king(b, GOTE),
        owner == SENTE || owner == GOTE,
    ensures
        legal_moves(b, owner, sh, gh, variant).contains(m) ==> legal_moves(
            mirrored(b),
            (-owner) as i8,
            gh,
            sh,
            variant,
        ).contains(flip_move(m)),
        legal_moves(mirrored(b), (-owner) as i8, gh, sh, variant).contains(m) ==> legal_moves(
            b,
            owner,
            sh,
            gh,
            variant,
        ).contains(flip_move(m)),
{
    if legal_moves(b, owner, sh, gh, variant).contains(m) {
        lemma_legal_move_flip(b, owner, sh, gh, variant, m);
    }
    if legal_moves(mirrored(b), (-owner) as i8, gh, sh, variant).contains(m) {
        lemma_mirrored_twice(b);
        lemma_single_king_mirror(b, SENTE);
        lemma_single_king_mirror(b, GOTE);
        lemma_legal_move_flip(mirrored(b), (-owner) as i8, gh, sh, variant, m);
        assert((-((-owner) as i8)) as i8 == owner);
    }
}

/// The position seen from the other side with the board turned over top to
/// bottom: rows exchanged, every piece changing owner, columns kept.
pub open spec fn turned_over(b: Seq<i8>) -> Seq<i8> {
    Seq::new(81, |k: int| (-b[sq_index(8 - row_of(k), col_of(k))]) as i8)
}

proof fn lemma_turned_over_is_mirrored_reflection(b: Seq<i8>)
    requires
        no_min(b),
    ensures
        no_min(reflected(b)),
        turned_over(b) == mirrored(reflected(b)),
{
    assert forall|k: int| 0 <= k < 81 implies #[trigger] reflected(b)[k] != i8::MIN by {
        lemma_index_square(k);
        let j = sq_index(row_of(k), 8 - col_of(k));
        assert(0 <= j < 81);
        assert(b[j] != i8::MIN);
    }
    assert forall|k: int| 0 <= k < 81 implies #[trigger] turned_over(b)[k] == mirrored(reflected(b))[k] by {
        crate::eval::lemma_mirror_square(k);
    }
    assert(turned_over(b) =~= mirrored(reflected(b)));
}

/// A gote piece moves as the sente piece does with the board turned over
/// top to bottom: a piece reaches a square exactly when the opposite piece,
/// on the turned-over board and the square in the same column of the
/// opposite row, reaches the square in the same column of the opposite row.
/// Stated for boards where no square holds -128.
pub proof fn lemma_piece_moves_turned_over(p: i8, r: int, c: int, b: Seq<i8>, t: (usize, usize))
    requires
        no_min(b),
        p != i8::MIN,
        on_board(t.0 as int, t.1 as int),
    ensures
        piece_moves((-p) as i8, 8 - r, c, turned_over(b)).contains(((8 - t.0) as usize, t.1)) <==> piece_moves(
            p,
            r,
            c,
            b,
        ).contains(t),
{
    lemma_turned_over_is_mirrored_reflection(b);
    lemma_piece_moves_reflect(p, r, c, b, t);
    let u = refl(t);
    lemma_piece_moves_flip(p, r, 8 - c, reflected(b), u);
    assert(flip(u) == ((8 - t.0) as usize, t.1));
    assert(8 - (8 - c) == c);
}

/// The static evaluation is zero-sum under turning the board over top to
/// bottom and exchanging the hands. Stated for boards where no square holds
/// -128.
pub proof fn lemma_evaluation_turned_over(b: Seq<i8>, sh: Seq<u8>, gh: Seq<u8>, variant: GameVariant)
    requires
        no_min(b),
    ensures
        evaluation(turned_over(b), gh, sh, variant) == -evaluation(b, sh, gh, variant),
{
    lemma_turned_over_is_mirrored_reflection(b);
    crate::eval::lemma_evaluation_antisymmetric(reflected(b), sh, gh, variant);
    lemma_evaluation_reflect(b, sh, gh, variant);
}

/// Check, stated square by square: a player whose only king stands on square
/// `j` is in check exactly when some piece of the opponent reaches that
/// square; a player with no king on the board counts as in check.
pub proof fn lemma_check_is_attack_on_king(b: Seq<i8>, owner: i8, j: int)
    requires
        b.len() == 81,
        owner == SENTE || owner == GOTE,
        0 <= j < 81,
        b[j] == owner * crate::types::OU,
        forall|i: int| 0 <= i < 81 && i != j ==> #[trigger] b[i] != owner * crate::types::OU,
    ensures
        in_check(b, owner) <==> exists|k: int|
            0 <= k < 81 && owner_of(b[k]) == -owner && #[trigger] piece_moves(b[k], k / 9, k % 9, b).contains(
                ((j / 9) as usize, (j % 9) as usize),
            ),
{
    assert(single_king(b, owner)) by {
        assert forall|x: int, y: int|
            0 <= x < 81 && 0 <= y < 81 && is_king_of(#[trigger] b[x], owner) && is_king_of(#[trigger] b[y], owner)
            implies x == y by {
            if x != j {
                assert(b[x] == owner * crate::types::OU);
            }
            if y != j {
                assert(b[y] == owner * crate::types::OU);
            }
        }
    }
    assert(is_king_of(b[j], owner));
    lemma_single_king_square(b, owner, j);
    if in_check(b, owner) {
        let k = choose|k: int| #[trigger] checker_at(b, owner, k);
        assert(piece_moves(b[k], k / 9, k % 9, b).contains(((j / 9) as usize, (j % 9) as usize)));
    }
    if exists|k: int|
        0 <= k < 81 && owner_of(b[k]) == -owner && #[trigger] piece_moves(b[k], k / 9, k % 9, b).contains(
            ((j / 9) as usize, (j % 9) as usize),
        ) {
        let k = choose|k: int|
            0 <= k < 81 && owner_of(b[k]) == -owner && #[trigger] piece_moves(b[k], k / 9, k % 9, b).contains(
                ((j / 9) as usize, (j % 9) as usize),
            );
        assert(checker_at(b, owner, k));
    }
}

/// A player with no king on the board counts as in check.
pub proof fn lemma_no_king_is_check(b: Seq<i8>, owner: i8)
    requires
        b.len() == 81,
        forall|i: int| 0 <= i < 81 ==> #[trigger] b[i] != owner * crate::types::OU,
        owner == SENTE || owner == GOTE,
    ensures
        in_check(b, owner),
{
    lemma_king_from_spec(b, owner, 0);
    if king_square(b, owner) is Some {
        let s = king_square(b, owner)->0;
        let i = choose|i: int|
            0 <= i < 81 && is_king_of(#[trigger] b[i], owner) && s == (row_of(i) as usize, col_of(i) as usize);
        assert(b[i] == owner * crate::types::OU);
    }
}

} // verus!
