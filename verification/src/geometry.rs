//! Where each piece goes, stated square by square: the squares next to a
//! piece that it reaches whenever its owner does not hold them, and, for
//! pieces that only step, that it reaches nothing else.
use vstd::prelude::*;

use crate::movegen::{at, line, on_board, piece_moves, reach3, slide, step_to};
use crate::symmetry::lemma_concat_all;
use crate::types::{
    kind_of, owner_of, GOTE, GI, HI, HM, KA, KE, KI, KO, KY, FU, NG, NIN, NK, NY, OU, RY, SENTE,
    TO, UM, WK,
};

verus! {

/// The row step toward the opponent: up the board for sente, down for gote.
pub open spec fn ahead(owner: i8) -> int {
    if owner == SENTE {
        -1
    } else {
        1
    }
}

/// A piece of kind `a` whose owner moves `f` rows ahead reaches the square
/// `(dr, dc)` away from it whenever that square is on the board and not
/// held by its owner: the steps of each kind, and the first square of each
/// line of the long-range pieces.
pub open spec fn near_step(a: i8, f: int, dr: int, dc: int) -> bool {
    let adjacent = -1 <= dr <= 1 && -1 <= dc <= 1 && !(dr == 0 && dc == 0);
    if a == FU || a == KY {
        dr == f && dc == 0
    } else if a == KE {
        dr == 2 * f && (dc == 1 || dc == -1)
    } else if a == GI {
        adjacent && (dr == f || (dr == -f && dc != 0))
    } else if a == KI || a == TO || a == NY || a == NK || a == NG {
        adjacent && (dr != -f || dc == 0)
    } else if a == KA {
        adjacent && dr != 0 && dc != 0
    } else if a == HI {
        adjacent && (dr == 0 || dc == 0)
    } else if a == UM || a == RY || a == KO || a == WK || a == OU || a == HM {
        adjacent
    } else {
        false
    }
}

/// The kinds that only step (no line moves).
pub open spec fn steps_only(a: i8) -> bool {
    a == FU || a == KE || a == GI || a == KI || a == TO || a == NY || a == NK || a == NG || a == OU
        || a == HM
}

proof fn lemma_step_has(b: Seq<i8>, o: i8, nr: int, nc: int)
    requires
        on_board(nr, nc),
        owner_of(at(b, nr, nc)) != o,
    ensures
        step_to(b, o, nr, nc).contains((nr as usize, nc as usize)),
{
    assert(step_to(b, o, nr, nc)[0] == (nr as usize, nc as usize));
}

proof fn lemma_slide_has_first(b: Seq<i8>, o: i8, nr: int, nc: int, dr: int, dc: int, n: nat)
    requires
        n > 0,
        on_board(nr, nc),
        owner_of(at(b, nr, nc)) != o,
    ensures
        slide(b, o, nr, nc, dr, dc, n).contains((nr as usize, nc as usize)),
{
    assert(slide(b, o, nr, nc, dr, dc, n)[0] == (nr as usize, nc as usize));
}

proof fn lemma_step_only(b: Seq<i8>, o: i8, nr: int, nc: int, t: (usize, usize))
    requires
        step_to(b, o, nr, nc).contains(t),
    ensures
        t == (nr as usize, nc as usize),
        on_board(nr, nc),
        owner_of(at(b, nr, nc)) != o,
{
}

/// A piece reaches each square next to it that its kind steps to (or first
/// square of each of its lines), whenever that square is on the board and
/// its owner does not hold it.
pub proof fn lemma_piece_reaches_near(p: i8, r: int, c: int, b: Seq<i8>, dr: int, dc: int)
    requires
        owner_of(p) == SENTE || owner_of(p) == GOTE,
        near_step(kind_of(p), ahead(owner_of(p)), dr, dc),
        on_board(r + dr, c + dc),
        owner_of(at(b, r + dr, c + dc)) != owner_of(p),
    ensures
        piece_moves(p, r, c, b).contains(((r + dr) as usize, (c + dc) as usize)),
{
    let o = owner_of(p);
    let a = kind_of(p);
    let t = ((r + dr) as usize, (c + dc) as usize);
    lemma_step_has(b, o, r + dr, c + dc);
    lemma_slide_has_first(b, o, r + dr, c + dc, dr, dc, 9);
    lemma_slide_has_first(b, o, r + dr, c + dc, dr, dc, 3);
    assert(line(b, o, r, c, dr, dc).contains(t));
    assert(reach3(b, o, r, c, dr, dc).contains(t));
    lemma_concat_all();
    assert(crate::movegen::forward(o) == ahead(o));
}

/// A piece that only steps reaches nothing but the squares next to it that
/// its kind steps to, on the board and not held by its owner; a NIN, and a
/// value of no kind, reaches nothing.
pub proof fn lemma_stepper_reaches_only_near(p: i8, r: int, c: int, b: Seq<i8>, t: (usize, usize))
    requires
        steps_only(kind_of(p)) || kind_of(p) == NIN || !(crate::movegen::has_moves(kind_of(p))),
        piece_moves(p, r, c, b).contains(t),
    ensures
        steps_only(kind_of(p)),
        near_step(kind_of(p), ahead(owner_of(p)), t.0 - r, t.1 - c),
        on_board(t.0 as int, t.1 as int),
        owner_of(at(b, t.0 as int, t.1 as int)) != owner_of(p),
{
    let o = owner_of(p);
    let a = kind_of(p);
    let f = crate::movegen::forward(o);
    assert(f == ahead(o));
    lemma_concat_all();
    if a == FU {
        lemma_step_only(b, o, r + f, c, t);
    } else if a == KE {
        if step_to(b, o, r + 2 * f, c - 1).contains(t) {
            lemma_step_only(b, o, r + 2 * f, c - 1, t);
        } else {
            lemma_step_only(b, o, r + 2 * f, c + 1, t);
        }
    } else if a == GI {
        if step_to(b, o, r + f, c - 1).contains(t) {
            lemma_step_only(b, o, r + f, c - 1, t);
        } else if step_to(b, o, r + f, c).contains(t) {
            lemma_step_only(b, o, r + f, c, t);
        } else if step_to(b, o, r + f, c + 1).contains(t) {
            lemma_step_only(b, o, r + f, c + 1, t);
        } else if step_to(b, o, r - f, c - 1).contains(t) {
            lemma_step_only(b, o, r - f, c - 1, t);
        } else {
            lemma_step_only(b, o, r - f, c + 1, t);
        }
    } else if a == KI || a == TO || a == NY || a == NK || a == NG {
        if step_to(b, o, r + f, c - 1).contains(t) {
            lemma_step_only(b, o, r + f, c - 1, t);
        } else if step_to(b, o, r + f, c).contains(t) {
            lemma_step_only(b, o, r + f, c, t);
        } else if step_to(b, o, r + f, c + 1).contains(t) {
            lemma_step_only(b, o, r + f, c + 1, t);
        } else if step_to(b, o, r, c - 1).contains(t) {
            lemma_step_only(b, o, r, c - 1, t);
        } else if step_to(b, o, r, c + 1).contains(t) {
            lemma_step_only(b, o, r, c + 1, t);
        } else {
            lemma_step_only(b, o, r - f, c, t);
        }
    } else if a == OU || a == HM {
        if step_to(b, o, r - 1, c - 1).contains(t) {
            lemma_step_only(b, o, r - 1, c - 1, t);
        } else if step_to(b, o, r - 1, c).contains(t) {
            lemma_step_only(b, o, r - 1, c, t);
        } else if step_to(b, o, r - 1, c + 1).contains(t) {
            lemma_step_only(b, o, r - 1, c + 1, t);
        } else if step_to(b, o, r, c - 1).contains(t) {
            lemma_step_only(b, o, r, c - 1, t);
        } else if step_to(b, o, r, c + 1).contains(t) {
            lemma_step_only(b, o, r, c + 1, t);
        } else if step_to(b, o, r + 1, c - 1).contains(t) {
            lemma_step_only(b, o, r + 1, c - 1, t);
        } else if step_to(b, o, r + 1, c).contains(t) {
            lemma_step_only(b, o, r + 1, c, t);
        } else {
            lemma_step_only(b, o, r + 1, c + 1, t);
        }
    }
}

/// The `j`-th square from `(r, c)` in direction `(dr, dc)` is on the board.
pub open spec fn ray_on(r: int, c: int, dr: int, dc: int, j: int) -> bool {
    on_board(r + j * dr, c + j * dc)
}

/// What the `j`-th square from `(r, c)` in direction `(dr, dc)` holds.
pub open spec fn ray_at(b: Seq<i8>, r: int, c: int, dr: int, dc: int, j: int) -> i8 {
    at(b, r + j * dr, c + j * dc)
}

/// The `j`-th square from `(r, c)` in direction `(dr, dc)` is on the board
/// and empty.
pub open spec fn ray_clear(b: Seq<i8>, r: int, c: int, dr: int, dc: int, j: int) -> bool {
    ray_on(r, c, dr, dc, j) && ray_at(b, r, c, dr, dc, j) == 0
}

/// The squares strictly between a piece on `(r, c)` and the `k`-th square
/// in direction `(dr, dc)` are on the board and empty.
pub open spec fn clear_ray(b: Seq<i8>, r: int, c: int, dr: int, dc: int, k: int) -> bool {
    forall|j: int| 1 <= j < k ==> #[trigger] ray_clear(b, r, c, dr, dc, j)
}

/// `t` is the `k`-th square from `(r, c)` in direction `(dr, dc)`, for some
/// `k` from 1 to `n`, with the squares before it clear.
pub open spec fn on_ray(b: Seq<i8>, r: int, c: int, dr: int, dc: int, n: int, t: (usize, usize)) -> bool {
    exists|k: int|
        1 <= k <= n && #[trigger] clear_ray(b, r, c, dr, dc, k) && t == (
            (r + k * dr) as usize,
            (c + k * dc) as usize,
        )
}

/// The directions in which a piece of kind `a` (owner moving `f` rows
/// ahead) moves more than one square.
pub open spec fn line_dir(a: i8, f: int, dr: int, dc: int) -> bool {
    let adjacent = -1 <= dr <= 1 && -1 <= dc <= 1 && !(dr == 0 && dc == 0);
    if a == KY {
        dr == f && dc == 0
    } else if a == KA || a == UM {
        adjacent && dr != 0 && dc != 0
    } else if a == HI || a == RY {
        adjacent && (dr == 0 || dc == 0)
    } else if a == WK || a == KO {
        adjacent
    } else {
        false
    }
}

/// How many squares a piece of kind `a` moves along its lines (9: as far
/// as the board goes).
pub open spec fn reach_of(a: i8) -> int {
    if a == KO {
        3
    } else {
        9
    }
}

proof fn lemma_ray_shift(b: Seq<i8>, r: int, c: int, dr: int, dc: int, j: int)
    ensures
        ray_at(b, r + dr, c + dc, dr, dc, j) == ray_at(b, r, c, dr, dc, j + 1),
        ray_on(r + dr, c + dc, dr, dc, j) == ray_on(r, c, dr, dc, j + 1),
        (r + dr) + j * dr == r + (j + 1) * dr,
        (c + dc) + j * dc == c + (j + 1) * dc,
{
    assert((r + dr) + j * dr == r + (j + 1) * dr) by (nonlinear_arith);
    assert((c + dc) + j * dc == c + (j + 1) * dc) by (nonlinear_arith);
}

proof fn lemma_clear_shift(b: Seq<i8>, nr: int, nc: int, dr: int, dc: int, i: int)
    requires
        forall|j: int| 0 <= j < i ==> #[trigger] ray_clear(b, nr, nc, dr, dc, j),
    ensures
        forall|j: int|
            0 <= j < i - 1 ==> #[trigger] ray_clear(b, nr + dr, nc + dc, dr, dc, j),
{
    assert forall|j: int| 0 <= j < i - 1 implies #[trigger] ray_clear(b, nr + dr, nc + dc, dr, dc, j) by {
        lemma_ray_shift(b, nr, nc, dr, dc, j);
        assert(ray_clear(b, nr, nc, dr, dc, j + 1));
    }
}

proof fn lemma_slide_reaches(b: Seq<i8>, o: i8, nr: int, nc: int, dr: int, dc: int, n: nat, i: int)
    requires
        o == SENTE || o == GOTE,
        0 <= i < n,
        forall|j: int| 0 <= j < i ==> #[trigger] ray_clear(b, nr, nc, dr, dc, j),
        ray_on(nr, nc, dr, dc, i),
        owner_of(ray_at(b, nr, nc, dr, dc, i)) != o,
    ensures
        slide(b, o, nr, nc, dr, dc, n).contains(((nr + i * dr) as usize, (nc + i * dc) as usize)),
    decreases i,
{
    let t = ((nr + i * dr) as usize, (nc + i * dc) as usize);
    if i == 0 {
        assert(slide(b, o, nr, nc, dr, dc, n)[0] == t);
    } else {
        assert(ray_clear(b, nr, nc, dr, dc, 0));
        assert(nr + 0 * dr == nr && nc + 0 * dc == nc);
        lemma_clear_shift(b, nr, nc, dr, dc, i);
        lemma_ray_shift(b, nr, nc, dr, dc, i - 1);
        assert(0 <= i - 1 < (n - 1) as nat);
        assert(ray_on(nr + dr, nc + dc, dr, dc, i - 1));
        assert(owner_of(ray_at(b, nr + dr, nc + dc, dr, dc, i - 1)) != o);
        lemma_slide_reaches(b, o, nr + dr, nc + dc, dr, dc, (n - 1) as nat, i - 1);
        let rest = slide(b, o, nr + dr, nc + dc, dr, dc, (n - 1) as nat);
        let q = choose|q: int| 0 <= q < rest.len() && rest[q] == t;
        assert(slide(b, o, nr, nc, dr, dc, n)[q + 1] == t);
    }
}

/// The squares a slide reaches.
pub open spec fn slide_hit(b: Seq<i8>, o: i8, nr: int, nc: int, dr: int, dc: int, i: int, t: (usize, usize)) -> bool {
    &&& t == ((nr + i * dr) as usize, (nc + i * dc) as usize)
    &&& ray_on(nr, nc, dr, dc, i)
    &&& owner_of(ray_at(b, nr, nc, dr, dc, i)) != o
    &&& forall|j: int| 0 <= j < i ==> #[trigger] ray_clear(b, nr, nc, dr, dc, j)
}

proof fn lemma_slide_only(b: Seq<i8>, o: i8, nr: int, nc: int, dr: int, dc: int, n: nat, t: (usize, usize))
    requires
        o == SENTE || o == GOTE,
        slide(b, o, nr, nc, dr, dc, n).contains(t),
    ensures
        exists|i: int| 0 <= i < n && #[trigger] slide_hit(b, o, nr, nc, dr, dc, i, t),
    decreases n,
{
    let s = slide(b, o, nr, nc, dr, dc, n);
    let q = choose|q: int| 0 <= q < s.len() && s[q] == t;
    if q == 0 {
        assert(nr + 0 * dr == nr && nc + 0 * dc == nc);
        assert(slide_hit(b, o, nr, nc, dr, dc, 0, t));
    } else {
        let rest = slide(b, o, nr + dr, nc + dc, dr, dc, (n - 1) as nat);
        assert(rest[q - 1] == t);
        lemma_slide_only(b, o, nr + dr, nc + dc, dr, dc, (n - 1) as nat, t);
        let i = choose|i: int| 0 <= i < n - 1 && #[trigger] slide_hit(b, o, nr + dr, nc + dc, dr, dc, i, t);
        lemma_ray_shift(b, nr, nc, dr, dc, i);
        assert forall|j: int| 0 <= j < i + 1 implies #[trigger] ray_clear(b, nr, nc, dr, dc, j) by {
            if j == 0 {
                assert(nr + 0 * dr == nr && nc + 0 * dc == nc);
            } else {
                lemma_ray_shift(b, nr, nc, dr, dc, j - 1);
                assert(ray_clear(b, nr + dr, nc + dc, dr, dc, j - 1));
            }
        }
        assert(slide_hit(b, o, nr, nc, dr, dc, i + 1, t));
    }
}

/// Along a line that it moves in, a piece reaches every square up to its
/// range whose way there is clear, when its owner does not hold the square.
pub proof fn lemma_piece_reaches_along_line(p: i8, r: int, c: int, b: Seq<i8>, dr: int, dc: int, k: int)
    requires
        owner_of(p) == SENTE || owner_of(p) == GOTE,
        line_dir(kind_of(p), ahead(owner_of(p)), dr, dc),
        1 <= k <= reach_of(kind_of(p)),
        clear_ray(b, r, c, dr, dc, k),
        ray_on(r, c, dr, dc, k),
        owner_of(ray_at(b, r, c, dr, dc, k)) != owner_of(p),
    ensures
        piece_moves(p, r, c, b).contains(((r + k * dr) as usize, (c + k * dc) as usize)),
{
    let o = owner_of(p);
    let t = ((r + k * dr) as usize, (c + k * dc) as usize);
    assert forall|j: int| 0 <= j < k - 1 implies #[trigger] ray_clear(b, r + dr, c + dc, dr, dc, j) by {
        lemma_ray_shift(b, r, c, dr, dc, j);
        assert(ray_clear(b, r, c, dr, dc, j + 1));
    }
    lemma_ray_shift(b, r, c, dr, dc, k - 1);
    lemma_slide_reaches(b, o, r + dr, c + dc, dr, dc, 9, k - 1);
    if kind_of(p) == KO {
        lemma_slide_reaches(b, o, r + dr, c + dc, dr, dc, 3, k - 1);
    }
    assert(line(b, o, r, c, dr, dc).contains(t));
    assert(kind_of(p) == KO ==> reach3(b, o, r, c, dr, dc).contains(t));
    lemma_concat_all();
    assert(crate::movegen::forward(o) == ahead(o));
}

proof fn lemma_line_only(b: Seq<i8>, o: i8, r: int, c: int, dr: int, dc: int, n: nat, t: (usize, usize))
    requires
        o == SENTE || o == GOTE,
        slide(b, o, r + dr, c + dc, dr, dc, n).contains(t),
    ensures
        on_ray(b, r, c, dr, dc, n as int, t),
        on_board(t.0 as int, t.1 as int),
        owner_of(at(b, t.0 as int, t.1 as int)) != o,
{
    lemma_slide_only(b, o, r + dr, c + dc, dr, dc, n, t);
    let i = choose|i: int| 0 <= i < n && #[trigger] slide_hit(b, o, r + dr, c + dc, dr, dc, i, t);
    lemma_ray_shift(b, r, c, dr, dc, i);
    assert forall|j: int| 1 <= j < i + 1 implies #[trigger] ray_clear(b, r, c, dr, dc, j) by {
        lemma_ray_shift(b, r, c, dr, dc, j - 1);
        assert(ray_clear(b, r + dr, c + dc, dr, dc, j - 1));
    }
    assert(clear_ray(b, r, c, dr, dc, i + 1));
}

proof fn lemma_ky_only(a: i8, o: i8, f: int, r: int, c: int, b: Seq<i8>, t: (usize, usize))
    requires
        o == SENTE || o == GOTE,
        a == KY,
        f == ahead(o),
        (line(b, o, r, c, f, 0)).contains(t),
    ensures
        on_board(t.0 as int, t.1 as int),
        owner_of(at(b, t.0 as int, t.1 as int)) != o,
        near_step(a, f, t.0 - r, t.1 - c) || exists|dr: int, dc: int|
            line_dir(a, f, dr, dc) && #[trigger] on_ray(b, r, c, dr, dc, reach_of(a), t),
{
    lemma_concat_all();
    {
        lemma_line_only(b, o, r, c, f, 0, 9, t);
        assert(line_dir(a, f, f, 0) && on_ray(b, r, c, f, 0, reach_of(a), t));
    }
}

proof fn lemma_ka_only(a: i8, o: i8, f: int, r: int, c: int, b: Seq<i8>, t: (usize, usize))
    requires
        o == SENTE || o == GOTE,
        a == KA || a == UM,
        f == ahead(o),
        (line(b, o, r, c, -1, -1) + line(b, o, r, c, -1, 1) + line(b, o, r, c, 1, -1) + line(b, o, r, c, 1, 1)).contains(t),
    ensures
        on_board(t.0 as int, t.1 as int),
        owner_of(at(b, t.0 as int, t.1 as int)) != o,
        near_step(a, f, t.0 - r, t.1 - c) || exists|dr: int, dc: int|
            line_dir(a, f, dr, dc) && #[trigger] on_ray(b, r, c, dr, dc, reach_of(a), t),
{
    lemma_concat_all();
    if line(b, o, r, c, -1, -1).contains(t) {
        lemma_line_only(b, o, r, c, -1, -1, 9, t);
        assert(line_dir(a, f, -1, -1) && on_ray(b, r, c, -1, -1, reach_of(a), t));
    } else if line(b, o, r, c, -1, 1).contains(t) {
        lemma_line_only(b, o, r, c, -1, 1, 9, t);
        assert(line_dir(a, f, -1, 1) && on_ray(b, r, c, -1, 1, reach_of(a), t));
    } else if line(b, o, r, c, 1, -1).contains(t) {
        lemma_line_only(b, o, r, c, 1, -1, 9, t);
        assert(line_dir(a, f, 1, -1) && on_ray(b, r, c, 1, -1, reach_of(a), t));
    } else {
        lemma_line_only(b, o, r, c, 1, 1, 9, t);
        assert(line_dir(a, f, 1, 1) && on_ray(b, r, c, 1, 1, reach_of(a), t));
    }
}

proof fn lemma_hi_only(a: i8, o: i8, f: int, r: int, c: int, b: Seq<i8>, t: (usize, usize))
    requires
        o == SENTE || o == GOTE,
        a == HI || a == RY,
        f == ahead(o),
        (line(b, o, r, c, -1, 0) + line(b, o, r, c, 1, 0) + line(b, o, r, c, 0, -1) + line(b, o, r, c, 0, 1)).contains(t),
    ensures
        on_board(t.0 as int, t.1 as int),
        owner_of(at(b, t.0 as int, t.1 as int)) != o,
        near_step(a, f, t.0 - r, t.1 - c) || exists|dr: int, dc: int|
            line_dir(a, f, dr, dc) && #[trigger] on_ray(b, r, c, dr, dc, reach_of(a), t),
{
    lemma_concat_all();
    if line(b, o, r, c, -1, 0).contains(t) {
        lemma_line_only(b, o, r, c, -1, 0, 9, t);
        assert(line_dir(a, f, -1, 0) && on_ray(b, r, c, -1, 0, reach_of(a), t));
    } else if line(b, o, r, c, 1, 0).contains(t) {
        lemma_line_only(b, o, r, c, 1, 0, 9, t);
        assert(line_dir(a, f, 1, 0) && on_ray(b, r, c, 1, 0, reach_of(a), t));
    } else if line(b, o, r, c, 0, -1).contains(t) {
        lemma_line_only(b, o, r, c, 0, -1, 9, t);
        assert(line_dir(a, f, 0, -1) && on_ray(b, r, c, 0, -1, reach_of(a), t));
    } else {
        lemma_line_only(b, o, r, c, 0, 1, 9, t);
        assert(line_dir(a, f, 0, 1) && on_ray(b, r, c, 0, 1, reach_of(a), t));
    }
}

proof fn lemma_um_only(a: i8, o: i8, f: int, r: int, c: int, b: Seq<i8>, t: (usize, usize))
    requires
        o == SENTE || o == GOTE,
        a == UM,
        f == ahead(o),
        (line(b, o, r, c, -1, -1) + line(b, o, r, c, -1, 1) + line(b, o, r, c, 1, -1) + line(b, o, r, c, 1, 1) + step_to(b, o, r - 1, c + 0) + step_to(b, o, r + 1, c + 0) + step_to(b, o, r, c - 1) + step_to(b, o, r, c + 1)).contains(t),
    ensures
        on_board(t.0 as int, t.1 as int),
        owner_of(at(b, t.0 as int, t.1 as int)) != o,
        near_step(a, f, t.0 - r, t.1 - c) || exists|dr: int, dc: int|
            line_dir(a, f, dr, dc) && #[trigger] on_ray(b, r, c, dr, dc, reach_of(a), t),
{
    lemma_concat_all();
    if line(b, o, r, c, -1, -1).contains(t) {
        lemma_line_only(b, o, r, c, -1, -1, 9, t);
        assert(line_dir(a, f, -1, -1) && on_ray(b, r, c, -1, -1, reach_of(a), t));
    } else if line(b, o, r, c, -1, 1).contains(t) {
        lemma_line_only(b, o, r, c, -1, 1, 9, t);
        assert(line_dir(a, f, -1, 1) && on_ray(b, r, c, -1, 1, reach_of(a), t));
    } else if line(b, o, r, c, 1, -1).contains(t) {
        lemma_line_only(b, o, r, c, 1, -1, 9, t);
        assert(line_dir(a, f, 1, -1) && on_ray(b, r, c, 1, -1, reach_of(a), t));
    } else if line(b, o, r, c, 1, 1).contains(t) {
        lemma_line_only(b, o, r, c, 1, 1, 9, t);
        assert(line_dir(a, f, 1, 1) && on_ray(b, r, c, 1, 1, reach_of(a), t));
    } else if step_to(b, o, r - 1, c + 0).contains(t) {
        lemma_step_only(b, o, r - 1, c, t);
    } else if step_to(b, o, r + 1, c + 0).contains(t) {
        lemma_step_only(b, o, r + 1, c, t);
    } else if step_to(b, o, r, c - 1).contains(t) {
        lemma_step_only(b, o, r, c - 1, t);
    } else {
        lemma_step_only(b, o, r, c + 1, t);
    }
}

proof fn lemma_ry_only(a: i8, o: i8, f: int, r: int, c: int, b: Seq<i8>, t: (usize, usize))
    requires
        o == SENTE || o == GOTE,
        a == RY,
        f == ahead(o),
        (line(b, o, r, c, -1, 0) + line(b, o, r, c, 1, 0) + line(b, o, r, c, 0, -1) + line(b, o, r, c, 0, 1) + step_to(b, o, r - 1, c - 1) + step_to(b, o, r - 1, c + 1) + step_to(b, o, r + 1, c - 1) + step_to(b, o, r + 1, c + 1)).contains(t),
    ensures
        on_board(t.0 as int, t.1 as int),
        owner_of(at(b, t.0 as int, t.1 as int)) != o,
        near_step(a, f, t.0 - r, t.1 - c) || exists|dr: int, dc: int|
            line_dir(a, f, dr, dc) && #[trigger] on_ray(b, r, c, dr, dc, reach_of(a), t),
{
    lemma_concat_all();
    if line(b, o, r, c, -1, 0).contains(t) {
        lemma_line_only(b, o, r, c, -1, 0, 9, t);
        assert(line_dir(a, f, -1, 0) && on_ray(b, r, c, -1, 0, reach_of(a), t));
    } else if line(b, o, r, c, 1, 0).contains(t) {
        lemma_line_only(b, o, r, c, 1, 0, 9, t);
        assert(line_dir(a, f, 1, 0) && on_ray(b, r, c, 1, 0, reach_of(a), t));
    } else if line(b, o, r, c, 0, -1).contains(t) {
        lemma_line_only(b, o, r, c, 0, -1, 9, t);
        assert(line_dir(a, f, 0, -1) && on_ray(b, r, c, 0, -1, reach_of(a), t));
    } else if line(b, o, r, c, 0, 1).contains(t) {
        lemma_line_only(b, o, r, c, 0, 1, 9, t);
        assert(line_dir(a, f, 0, 1) && on_ray(b, r, c, 0, 1, reach_of(a), t));
    } else if step_to(b, o, r - 1, c - 1).contains(t) {
        lemma_step_only(b, o, r - 1, c - 1, t);
    } else if step_to(b, o, r - 1, c + 1).contains(t) {
        lemma_step_only(b, o, r - 1, c + 1, t);
    } else if step_to(b, o, r + 1, c - 1).contains(t) {
        lemma_step_only(b, o, r + 1, c - 1, t);
    } else {
        lemma_step_only(b, o, r + 1, c + 1, t);
    }
}

proof fn lemma_wk_only(a: i8, o: i8, f: int, r: int, c: int, b: Seq<i8>, t: (usize, usize))
    requires
        o == SENTE || o == GOTE,
        a == WK,
        f == ahead(o),
        (crate::movegen::bishop_lines(b, o, r, c) + crate::movegen::rook_lines(b, o, r, c)).contains(t),
    ensures
        on_board(t.0 as int, t.1 as int),
        owner_of(at(b, t.0 as int, t.1 as int)) != o,
        near_step(a, f, t.0 - r, t.1 - c) || exists|dr: int, dc: int|
            line_dir(a, f, dr, dc) && #[trigger] on_ray(b, r, c, dr, dc, reach_of(a), t),
{
    lemma_concat_all();
    if line(b, o, r, c, -1, -1).contains(t) {
        lemma_line_only(b, o, r, c, -1, -1, 9, t);
        assert(line_dir(a, f, -1, -1) && on_ray(b, r, c, -1, -1, reach_of(a), t));
    } else if line(b, o, r, c, -1, 1).contains(t) {
        lemma_line_only(b, o, r, c, -1, 1, 9, t);
        assert(line_dir(a, f, -1, 1) && on_ray(b, r, c, -1, 1, reach_of(a), t));
    } else if line(b, o, r, c, 1, -1).contains(t) {
        lemma_line_only(b, o, r, c, 1, -1, 9, t);
        assert(line_dir(a, f, 1, -1) && on_ray(b, r, c, 1, -1, reach_of(a), t));
    } else if line(b, o, r, c, 1, 1).contains(t) {
        lemma_line_only(b, o, r, c, 1, 1, 9, t);
        assert(line_dir(a, f, 1, 1) && on_ray(b, r, c, 1, 1, reach_of(a), t));
    } else if line(b, o, r, c, -1, 0).contains(t) {
        lemma_line_only(b, o, r, c, -1, 0, 9, t);
        assert(line_dir(a, f, -1, 0) && on_ray(b, r, c, -1, 0, reach_of(a), t));
    } else if line(b, o, r, c, 1, 0).contains(t) {
        lemma_line_only(b, o, r, c, 1, 0, 9, t);
        assert(line_dir(a, f, 1, 0) && on_ray(b, r, c, 1, 0, reach_of(a), t));
    } else if line(b, o, r, c, 0, -1).contains(t) {
        lemma_line_only(b, o, r, c, 0, -1, 9, t);
        assert(line_dir(a, f, 0, -1) && on_ray(b, r, c, 0, -1, reach_of(a), t));
    } else {
        lemma_line_only(b, o, r, c, 0, 1, 9, t);
        assert(line_dir(a, f, 0, 1) && on_ray(b, r, c, 0, 1, reach_of(a), t));
    }
}

proof fn lemma_ko_only(a: i8, o: i8, f: int, r: int, c: int, b: Seq<i8>, t: (usize, usize))
    requires
        o == SENTE || o == GOTE,
        a == KO,
        f == ahead(o),
        (reach3(b, o, r, c, -1, -1) + reach3(b, o, r, c, -1, 0) + reach3(b, o, r, c, -1, 1) + reach3(b, o, r, c, 0, -1) + reach3(b, o, r, c, 0, 1) + reach3(b, o, r, c, 1, -1) + reach3(b, o, r, c, 1, 0) + reach3(b, o, r, c, 1, 1)).contains(t),
    ensures
        on_board(t.0 as int, t.1 as int),
        owner_of(at(b, t.0 as int, t.1 as int)) != o,
        near_step(a, f, t.0 - r, t.1 - c) || exists|dr: int, dc: int|
            line_dir(a, f, dr, dc) && #[trigger] on_ray(b, r, c, dr, dc, reach_of(a), t),
{
    lemma_concat_all();
    if reach3(b, o, r, c, -1, -1).contains(t) {
        lemma_line_only(b, o, r, c, -1, -1, 3, t);
        assert(line_dir(a, f, -1, -1) && on_ray(b, r, c, -1, -1, reach_of(a), t));
    } else if reach3(b, o, r, c, -1, 0).contains(t) {
        lemma_line_only(b, o, r, c, -1, 0, 3, t);
        assert(line_dir(a, f, -1, 0) && on_ray(b, r, c, -1, 0, reach_of(a), t));
    } else if reach3(b, o, r, c, -1, 1).contains(t) {
        lemma_line_only(b, o, r, c, -1, 1, 3, t);
        assert(line_dir(a, f, -1, 1) && on_ray(b, r, c, -1, 1, reach_of(a), t));
    } else if reach3(b, o, r, c, 0, -1).contains(t) {
        lemma_line_only(b, o, r, c, 0, -1, 3, t);
        assert(line_dir(a, f, 0, -1) && on_ray(b, r, c, 0, -1, reach_of(a), t));
    } else if reach3(b, o, r, c, 0, 1).contains(t) {
        lemma_line_only(b, o, r, c, 0, 1, 3, t);
        assert(line_dir(a, f, 0, 1) && on_ray(b, r, c, 0, 1, reach_of(a), t));
    } else if reach3(b, o, r, c, 1, -1).contains(t) {
        lemma_line_only(b, o, r, c, 1, -1, 3, t);
        assert(line_dir(a, f, 1, -1) && on_ray(b, r, c, 1, -1, reach_of(a), t));
    } else if reach3(b, o, r, c, 1, 0).contains(t) {
        lemma_line_only(b, o, r, c, 1, 0, 3, t);
        assert(line_dir(a, f, 1, 0) && on_ray(b, r, c, 1, 0, reach_of(a), t));
    } else {
        lemma_line_only(b, o, r, c, 1, 1, 3, t);
        assert(line_dir(a, f, 1, 1) && on_ray(b, r, c, 1, 1, reach_of(a), t));
    }
}

/// A long-range piece reaches nothing but squares on the board not held by
/// its owner, each either a step its kind makes or a square along one of its
/// lines, within its range, with the way there clear.
pub proof fn lemma_ranger_reaches_only_lines(p: i8, r: int, c: int, b: Seq<i8>, t: (usize, usize))
    requires
        owner_of(p) == SENTE || owner_of(p) == GOTE,
        kind_of(p) == KY || kind_of(p) == KA || kind_of(p) == HI || kind_of(p) == UM || kind_of(p) == RY
            || kind_of(p) == WK || kind_of(p) == KO,
        piece_moves(p, r, c, b).contains(t),
    ensures
        on_board(t.0 as int, t.1 as int),
        owner_of(at(b, t.0 as int, t.1 as int)) != owner_of(p),
        near_step(kind_of(p), ahead(owner_of(p)), t.0 - r, t.1 - c) || exists|dr: int, dc: int|
            line_dir(kind_of(p), ahead(owner_of(p)), dr, dc) && #[trigger] on_ray(
                b,
                r,
                c,
                dr,
                dc,
                reach_of(kind_of(p)),
                t,
            ),
{
    let o = owner_of(p);
    let a = kind_of(p);
    let f = crate::movegen::forward(o);
    assert(f == ahead(o));
    if a == KY {
        lemma_ky_only(a, o, f, r, c, b, t);
    } else if a == KA {
        lemma_ka_only(a, o, f, r, c, b, t);
    } else if a == HI {
        lemma_hi_only(a, o, f, r, c, b, t);
    } else if a == UM {
        lemma_um_only(a, o, f, r, c, b, t);
    } else if a == RY {
        lemma_ry_only(a, o, f, r, c, b, t);
    } else if a == WK {
        lemma_wk_only(a, o, f, r, c, b, t);
    } else {
        lemma_ko_only(a, o, f, r, c, b, t);
    }
}

} // verus!
