//! What playing a move and evaluating a position do, stated against the
//! piece tables of shogi: which kind a piece promotes into, where a captured
//! piece is kept, and what each piece and each held piece is worth.
use vstd::prelude::*;

use crate::apply::{board_after, mover_hand_after};
use crate::check::hand_for;
use crate::eval::{board_score, evaluation, hand_score, square_score};
use crate::types::{
    kind_of, owner_of, GameVariant, FU, GI, GOTE, HI, HM, KA, KE, KI, KO, KY, MOVE_TYPE_ABORT_NIN,
    MOVE_TYPE_DROP, MOVE_TYPE_MOVE, MOVE_TYPE_PROMOTE_NIN, NG, NIN, NK, NY, OU, RY, SENTE, TO, UM,
    WK,
};

verus! {

/// The kind a piece of kind `a` turns into when it promotes; 0 when it has
/// no promoted form.
pub open spec fn promotes_into(a: i8) -> i8 {
    if a == FU {
        TO
    } else if a == KY {
        NY
    } else if a == KE {
        NK
    } else if a == GI {
        NG
    } else if a == KA {
        UM
    } else if a == HI {
        RY
    } else if a == KO {
        WK
    } else {
        0
    }
}

/// Hand position (HI, KA, KI, GI, KE, KY, FU, HM) in which a captured piece
/// of kind `a` is kept; -1 when it is not kept. A promoted piece goes back
/// to its unpromoted kind; in ouke a NIN or HM is kept as a gold and a KO or
/// WK is not kept.
pub open spec fn kept_at(a: i8, variant: GameVariant) -> int {
    if variant == GameVariant::Ouke && (a == NIN || a == HM) {
        2
    } else if variant == GameVariant::Ouke && (a == KO || a == WK) {
        -1
    } else if a == HI || a == RY {
        0
    } else if a == KA || a == UM {
        1
    } else if a == KI {
        2
    } else if a == GI || a == NG {
        3
    } else if a == KE || a == NK {
        4
    } else if a == KY || a == NY {
        5
    } else if a == FU || a == TO {
        6
    } else if a == HM {
        7
    } else {
        -1
    }
}

/// Hand position from which a piece of kind `a` is dropped; -1 for a kind
/// that is never held.
pub open spec fn dropped_from(a: i8) -> int {
    if a == HI {
        0
    } else if a == KA {
        1
    } else if a == KI {
        2
    } else if a == GI {
        3
    } else if a == KE {
        4
    } else if a == KY {
        5
    } else if a == FU {
        6
    } else if a == HM {
        7
    } else {
        -1
    }
}

/// A board move empties its square of departure; its square of arrival gets
/// the moving piece, promoted when the move promotes a piece that has a
/// promoted form; every other square stays as it was. A piece taken on the
/// square of arrival joins the mover's hand at the position where its kind
/// is kept, and the hand is otherwise unchanged.
pub proof fn lemma_board_move_effect(
    b: Seq<i8>,
    m: crate::types::ShogiMove,
    sh: Seq<u8>,
    gh: Seq<u8>,
    owner: i8,
    variant: GameVariant,
)
    requires
        b.len() == 81,
        sh.len() == 8,
        gh.len() == 8,
        owner == SENTE || owner == GOTE,
        m.move_type == MOVE_TYPE_MOVE,
        m.fr < 9 && m.fc < 9 && m.tr < 9 && m.tc < 9,
        m.fr * 9 + m.fc != m.tr * 9 + m.tc,
    ensures
        ({
            let f = m.fr * 9 + m.fc;
            let t = m.tr * 9 + m.tc;
            let nb = board_after(b, m, owner);
            let p = b[f];
            let q = promotes_into(kind_of(p));
            &&& nb.len() == 81
            &&& nb[f] == 0
            &&& nb[t] == (if m.promote && q != 0 {
                (owner * q) as i8
            } else {
                p
            })
            &&& forall|j: int| 0 <= j < 81 && j != f && j != t ==> #[trigger] nb[j] == b[j]
        }),
        ({
            let t = m.tr * 9 + m.tc;
            let h = hand_for(owner, sh, gh);
            let h2 = mover_hand_after(h, b, m, variant);
            let k = kept_at(kind_of(b[t]), variant);
            &&& b[t] != 0 && k >= 0 && h[k] < 255 ==> h2 == h.update(k, (h[k] + 1) as u8)
            &&& b[t] == 0 || k < 0 ==> h2 == h
        }),
{
    let f = m.fr * 9 + m.fc;
    let t = m.tr * 9 + m.tc;
    assert(crate::types::sq_index(m.fr as int, m.fc as int) == f);
    assert(crate::types::sq_index(m.tr as int, m.tc as int) == t);
}

/// A drop puts the dropping side's piece of the dropped kind on its square
/// and takes one piece of that kind from the hand (when one is held); every
/// other square stays as it was.
pub proof fn lemma_drop_effect(
    b: Seq<i8>,
    m: crate::types::ShogiMove,
    sh: Seq<u8>,
    gh: Seq<u8>,
    owner: i8,
    variant: GameVariant,
)
    requires
        b.len() == 81,
        sh.len() == 8,
        gh.len() == 8,
        owner == SENTE || owner == GOTE,
        m.move_type == MOVE_TYPE_DROP,
        m.tr < 9 && m.tc < 9,
        -18 <= m.piece <= 18,
    ensures
        ({
            let t = m.tr * 9 + m.tc;
            let nb = board_after(b, m, owner);
            &&& nb.len() == 81
            &&& nb[t] == owner * m.piece
            &&& forall|j: int| 0 <= j < 81 && j != t ==> #[trigger] nb[j] == b[j]
        }),
        ({
            let h = hand_for(owner, sh, gh);
            let h2 = mover_hand_after(h, b, m, variant);
            let k = dropped_from(m.piece);
            &&& k >= 0 && h[k] > 0 ==> h2 == h.update(k, (h[k] - 1) as u8)
            &&& k < 0 || h[k] == 0 ==> h2 == h
        }),
{
    assert(crate::types::sq_index(m.tr as int, m.tc as int) == m.tr * 9 + m.tc);
    if owner == SENTE {
        assert(owner * m.piece == m.piece);
    } else {
        assert(owner == -1);
        assert(owner * m.piece == -m.piece) by (nonlinear_arith)
            requires
                owner == -1,
        ;
    }
}

/// Turning a gold into a NIN, or a NIN back into a gold, changes only that
/// square, to the mover's NIN or gold, and leaves the hand alone.
pub proof fn lemma_nin_move_effect(
    b: Seq<i8>,
    m: crate::types::ShogiMove,
    sh: Seq<u8>,
    gh: Seq<u8>,
    owner: i8,
    variant: GameVariant,
)
    requires
        b.len() == 81,
        owner == SENTE || owner == GOTE,
        m.move_type == MOVE_TYPE_PROMOTE_NIN || m.move_type == MOVE_TYPE_ABORT_NIN,
        m.tr < 9 && m.tc < 9,
    ensures
        ({
            let t = m.tr * 9 + m.tc;
            let nb = board_after(b, m, owner);
            &&& nb[t] == owner * (if m.move_type == MOVE_TYPE_PROMOTE_NIN {
                NIN
            } else {
                KI
            })
            &&& forall|j: int| 0 <= j < 81 && j != t ==> #[trigger] nb[j] == b[j]
        }),
        mover_hand_after(hand_for(owner, sh, gh), b, m, variant) == hand_for(owner, sh, gh),
{
    assert(crate::types::sq_index(m.tr as int, m.tc as int) == m.tr * 9 + m.tc);
}

/// What one piece held at hand position `i` (HI, KA, KI, GI, KE, KY, FU, HM)
/// adds to its holder's side: 85% of the piece's value, rounded down.
pub open spec fn held_worth(i: int) -> int {
    if i == 0 {
        595
    } else if i == 1 {
        552
    } else if i == 2 {
        425
    } else if i == 3 {
        382
    } else if i == 4 {
        297
    } else if i == 5 {
        255
    } else if i == 6 {
        85
    } else if i == 7 {
        510
    } else {
        0
    }
}

proof fn lemma_hand_score_more(sh: Seq<u8>, gh: Seq<u8>, sente: bool, i: int, n: int)
    requires
        0 <= i < 8,
        0 <= n <= 8,
        sh.len() == 8,
        gh.len() == 8,
        sente ==> sh[i] < 255,
        !sente ==> gh[i] < 255,
    ensures
        hand_score(
            if sente { sh.update(i, (sh[i] + 1) as u8) } else { sh },
            if sente { gh } else { gh.update(i, (gh[i] + 1) as u8) },
            n,
        ) == hand_score(sh, gh, n) + (if i < n {
            if sente { held_worth(i) } else { -held_worth(i) }
        } else {
            0
        }),
    decreases n,
{
    if n > 0 {
        lemma_hand_score_more(sh, gh, sente, i, n - 1);
        let v = crate::types::value_of(crate::types::hand_kind(n - 1)) * 85 / 100;
        if n - 1 == i {
            assert(v == held_worth(i));
            let x = if sente { sh[i] } else { gh[i] };
            assert((x + 1) * v == x * v + v) by (nonlinear_arith);
        }
    }
}

/// One more piece in sente's hand raises the evaluation by what that piece
/// is worth held; one more in gote's hand lowers it by as much.
pub proof fn lemma_held_piece_worth(b: Seq<i8>, sh: Seq<u8>, gh: Seq<u8>, variant: GameVariant, i: int)
    requires
        0 <= i < 8,
        sh.len() == 8,
        gh.len() == 8,
    ensures
        sh[i] < 255 ==> evaluation(b, sh.update(i, (sh[i] + 1) as u8), gh, variant) == evaluation(b, sh, gh, variant)
            + held_worth(i),
        gh[i] < 255 ==> evaluation(b, sh, gh.update(i, (gh[i] + 1) as u8), variant) == evaluation(b, sh, gh, variant)
            - held_worth(i),
{
    if sh[i] < 255 {
        lemma_hand_score_more(sh, gh, true, i, 8);
    }
    if gh[i] < 255 {
        lemma_hand_score_more(sh, gh, false, i, 8);
    }
}

/// What a piece of kind `a` owned by `owner` on `(r, c)` is worth to its
/// owner in the normal game: its value, with pawns gaining 2 and KO 15 for
/// each rank they advance, and the king losing 5 for each file away from
/// the centre file.
pub open spec fn piece_worth(a: i8, owner: i8, r: int, c: int) -> int {
    if a == FU {
        100 + (if owner == SENTE { (6 - r) * 2 } else { (r - 2) * 2 })
    } else if a == KY {
        300
    } else if a == KE {
        350
    } else if a == GI {
        450
    } else if a == KI {
        500
    } else if a == KA {
        650
    } else if a == HI {
        700
    } else if a == OU {
        10000 - (if c >= 4 { c - 4 } else { 4 - c }) * 5
    } else if a == TO {
        420
    } else if a == NY {
        400
    } else if a == NK {
        410
    } else if a == NG {
        460
    } else if a == UM {
        850
    } else if a == RY {
        950
    } else if a == HM {
        600
    } else if a == KO {
        400 + (if owner == SENTE { (8 - r) * 15 } else { r * 15 })
    } else if a == WK {
        1200
    } else if a == NIN {
        650
    } else {
        0
    }
}

proof fn lemma_board_score_place(b: Seq<i8>, k: int, p: i8, n: int)
    requires
        b.len() == 81,
        0 <= k < 81,
        0 <= n <= 81,
    ensures
        board_score(b.update(k, p), GameVariant::Normal, n) == board_score(b, GameVariant::Normal, n) + (if k
            < n {
            square_score(b.update(k, p), GameVariant::Normal, k) - square_score(b, GameVariant::Normal, k)
        } else {
            0
        }),
    decreases n,
{
    if n > 0 {
        lemma_board_score_place(b, k, p, n - 1);
        if n - 1 != k {
            assert(b.update(k, p)[n - 1] == b[n - 1]);
        }
    }
}

/// Putting a piece on an empty square changes the evaluation of a normal
/// game by what the piece is worth, for sente and against gote.
pub proof fn lemma_placed_piece_worth(b: Seq<i8>, sh: Seq<u8>, gh: Seq<u8>, k: int, p: i8)
    requires
        b.len() == 81,
        0 <= k < 81,
        b[k] == 0,
        p != 0,
        p != i8::MIN,
    ensures
        evaluation(b.update(k, p), sh, gh, GameVariant::Normal) == evaluation(b, sh, gh, GameVariant::Normal)
            + owner_of(p) * piece_worth(kind_of(p), owner_of(p), k / 9, k % 9),
{
    lemma_board_score_place(b, k, p, 81);
    crate::legality::lemma_index_square(k);
    let o = owner_of(p) as int;
    let w = piece_worth(kind_of(p), owner_of(p), k / 9, k % 9);
    let v = crate::types::value_of(kind_of(p)) + crate::eval::positional(
        b.update(k, p),
        GameVariant::Normal,
        kind_of(p),
        owner_of(p),
        k / 9,
        k % 9,
    );
    assert(v == w);
    assert(square_score(b.update(k, p), GameVariant::Normal, k) == o * v);
}

} // verus!
