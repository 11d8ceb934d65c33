use vstd::prelude::*;

verus! {

// Piece type codes. A square holds `owner * piece_type` (0 when empty).
pub const EMPTY: i8 = 0;
pub const FU: i8 = 1;
pub const KY: i8 = 2;
pub const KE: i8 = 3;
pub const GI: i8 = 4;
pub const KI: i8 = 5;
pub const KA: i8 = 6;
pub const HI: i8 = 7;
pub const OU: i8 = 8;
pub const TO: i8 = 9;
pub const NY: i8 = 10;
pub const NK: i8 = 11;
pub const NG: i8 = 12;
pub const UM: i8 = 13;
pub const RY: i8 = 14;
pub const HM: i8 = 15;
pub const KO: i8 = 16;
pub const WK: i8 = 17;
pub const NIN: i8 = 18;

pub const SENTE: i8 = 1;
pub const GOTE: i8 = -1;

pub const BOARD_ROWS: usize = 9;
pub const BOARD_COLS: usize = 9;
pub const BOARD_SIZE: usize = 81;

/// Flat board, row-major: `board[r * 9 + c] = owner * piece_type`.
pub type Board = [i8; BOARD_SIZE];

/// Pieces in hand, counted per kind in the order HI, KA, KI, GI, KE, KY, FU, HM.
pub type Hand = [u8; 8];

/// The piece kind counted at position `i` of a hand.
pub open spec fn hand_kind(i: int) -> i8 {
    if i == 0 {
        HI
    } else if i == 1 {
        KA
    } else if i == 2 {
        KI
    } else if i == 3 {
        GI
    } else if i == 4 {
        KE
    } else if i == 5 {
        KY
    } else if i == 6 {
        FU
    } else if i == 7 {
        HM
    } else {
        EMPTY
    }
}

/// Position in a hand at which a piece kind is counted.
pub open spec fn hand_slot(piece_type: i8) -> Option<usize> {
    if piece_type == HI {
        Some(0)
    } else if piece_type == KA {
        Some(1)
    } else if piece_type == KI {
        Some(2)
    } else if piece_type == GI {
        Some(3)
    } else if piece_type == KE {
        Some(4)
    } else if piece_type == KY {
        Some(5)
    } else if piece_type == FU {
        Some(6)
    } else if piece_type == HM {
        Some(7)
    } else {
        None
    }
}

/// The piece kind counted at position `i` of a hand (`i < 8`).
pub fn hand_piece_type(i: usize) -> (p: i8)
    requires
        i < 8,
    ensures
        p == hand_kind(i as int),
{
    match i {
        0 => HI,
        1 => KA,
        2 => KI,
        3 => GI,
        4 => KE,
        5 => KY,
        6 => FU,
        _ => HM,
    }
}

pub fn hand_index(piece_type: i8) -> (r: Option<usize>)
    ensures
        r == hand_slot(piece_type),
{
    match piece_type {
        HI => Some(0),
        KA => Some(1),
        KI => Some(2),
        GI => Some(3),
        KE => Some(4),
        KY => Some(5),
        FU => Some(6),
        HM => Some(7),
        _ => None,
    }
}

/// `hand_index` and `hand_piece_type` are inverse to each other.
pub proof fn lemma_hand_index_roundtrip(p: i8, i: int)
    ensures
        hand_slot(p) matches Some(j) ==> j < 8 && hand_kind(j as int) == p,
        0 <= i < 8 ==> hand_slot(hand_kind(i)) == Some(i as usize),
{
}

#[derive(Clone, Copy, PartialEq, Eq, Structural, Debug)]
pub enum GameVariant {
    Normal,
    Ouke,
}

impl GameVariant {
    pub fn from_u8(v: u8) -> (g: Self)
        ensures
            g == (if v == 1 {
                GameVariant::Ouke
            } else {
                GameVariant::Normal
            }),
    {
        match v {
            1 => GameVariant::Ouke,
            _ => GameVariant::Normal,
        }
    }
}

pub const MOVE_TYPE_MOVE: u8 = 0;
pub const MOVE_TYPE_DROP: u8 = 1;
pub const MOVE_TYPE_PROMOTE_NIN: u8 = 2;
pub const MOVE_TYPE_ABORT_NIN: u8 = 3;

#[derive(Clone, Copy, Debug, PartialEq, Eq, Structural)]
pub struct ShogiMove {
    pub move_type: u8,
    pub fr: u8,
    pub fc: u8,
    pub tr: u8,
    pub tc: u8,
    pub promote: bool,
    /// Piece kind dropped (drops only).
    pub piece: i8,
}

impl ShogiMove {
    pub open spec fn board_move(fr: u8, fc: u8, tr: u8, tc: u8, promote: bool) -> ShogiMove {
        ShogiMove { move_type: MOVE_TYPE_MOVE, fr, fc, tr, tc, promote, piece: 0 }
    }

    pub open spec fn drop_move(piece: i8, tr: u8, tc: u8) -> ShogiMove {
        ShogiMove { move_type: MOVE_TYPE_DROP, fr: 255, fc: 255, tr, tc, promote: false, piece }
    }

    pub open spec fn promote_nin_move(tr: u8, tc: u8) -> ShogiMove {
        ShogiMove {
            move_type: MOVE_TYPE_PROMOTE_NIN,
            fr: 255,
            fc: 255,
            tr,
            tc,
            promote: false,
            piece: 0,
        }
    }

    pub open spec fn abort_nin_move(tr: u8, tc: u8) -> ShogiMove {
        ShogiMove {
            move_type: MOVE_TYPE_ABORT_NIN,
            fr: 255,
            fc: 255,
            tr,
            tc,
            promote: false,
            piece: 0,
        }
    }

    pub fn new_move(fr: u8, fc: u8, tr: u8, tc: u8, promote: bool) -> (m: Self)
        ensures
            m == Self::board_move(fr, fc, tr, tc, promote),
    {
        ShogiMove { move_type: MOVE_TYPE_MOVE, fr, fc, tr, tc, promote, piece: 0 }
    }

    pub fn new_drop(piece: i8, tr: u8, tc: u8) -> (m: Self)
        ensures
            m == Self::drop_move(piece, tr, tc),
    {
        ShogiMove { move_type: MOVE_TYPE_DROP, fr: 255, fc: 255, tr, tc, promote: false, piece }
    }

    pub fn new_promote_nin(tr: u8, tc: u8) -> (m: Self)
        ensures
            m == Self::promote_nin_move(tr, tc),
    {
        ShogiMove {
            move_type: MOVE_TYPE_PROMOTE_NIN,
            fr: 255,
            fc: 255,
            tr,
            tc,
            promote: false,
            piece: 0,
        }
    }

    pub fn new_abort_nin(tr: u8, tc: u8) -> (m: Self)
        ensures
            m == Self::abort_nin_move(tr, tc),
    {
        ShogiMove {
            move_type: MOVE_TYPE_ABORT_NIN,
            fr: 255,
            fc: 255,
            tr,
            tc,
            promote: false,
            piece: 0,
        }
    }
}

/// The move's squares lie on the board, and a drop names a kind that is
/// counted in hands.
pub open spec fn move_shape_ok(m: ShogiMove) -> bool {
    &&& m.tr < 9
    &&& m.tc < 9
    &&& m.move_type == MOVE_TYPE_MOVE ==> m.fr < 9 && m.fc < 9
    &&& m.move_type == MOVE_TYPE_DROP ==> hand_slot(m.piece) is Some
}

pub open spec fn all_shape_ok(s: Seq<ShogiMove>) -> bool {
    forall|i: int| 0 <= i < s.len() ==> move_shape_ok(#[trigger] s[i])
}

/// Promoted form of a piece kind, if it has one.
pub open spec fn promoted(p: i8) -> Option<i8> {
    if p == FU {
        Some(TO)
    } else if p == KY {
        Some(NY)
    } else if p == KE {
        Some(NK)
    } else if p == GI {
        Some(NG)
    } else if p == KA {
        Some(UM)
    } else if p == HI {
        Some(RY)
    } else if p == KO {
        Some(WK)
    } else {
        None
    }
}

/// Unpromoted form of a promoted piece kind.
pub open spec fn unpromoted(p: i8) -> Option<i8> {
    if p == TO {
        Some(FU)
    } else if p == NY {
        Some(KY)
    } else if p == NK {
        Some(KE)
    } else if p == NG {
        Some(GI)
    } else if p == UM {
        Some(KA)
    } else if p == RY {
        Some(HI)
    } else if p == WK {
        Some(KO)
    } else {
        None
    }
}

pub fn promote_piece(p: i8) -> (r: Option<i8>)
    ensures
        r == promoted(p),
{
    match p {
        FU => Some(TO),
        KY => Some(NY),
        KE => Some(NK),
        GI => Some(NG),
        KA => Some(UM),
        HI => Some(RY),
        KO => Some(WK),
        _ => None,
    }
}

pub fn unpromote_piece(p: i8) -> (r: Option<i8>)
    ensures
        r == unpromoted(p),
{
    match p {
        TO => Some(FU),
        NY => Some(KY),
        NK => Some(KE),
        NG => Some(GI),
        UM => Some(KA),
        RY => Some(HI),
        WK => Some(KO),
        _ => None,
    }
}

/// Promotion and unpromotion undo each other.
pub proof fn lemma_promote_unpromote(p: i8)
    ensures
        promoted(p) matches Some(q) ==> unpromoted(q) == Some(p),
        unpromoted(p) matches Some(q) ==> promoted(q) == Some(p),
        promoted(p) is Some ==> unpromoted(p) is None,
{
}

/// Owner of a square value: 1 (sente), -1 (gote) or 0 (empty).
pub open spec fn owner_of(v: i8) -> i8 {
    if v > 0 {
        SENTE
    } else if v < 0 {
        GOTE
    } else {
        0
    }
}

/// Piece kind of a square value: its magnitude, taken back into `i8`
/// (so `-128` stays `-128`).
pub open spec fn kind_of(v: i8) -> i8 {
    if v >= 0 {
        v
    } else if v == i8::MIN {
        i8::MIN
    } else {
        (-v) as i8
    }
}

/// Base (unpromoted) kind of a square value.
pub open spec fn base_of(p: i8) -> i8 {
    match unpromoted(kind_of(p)) {
        Some(q) => q,
        None => kind_of(p),
    }
}

pub fn base_type(p: i8) -> (r: i8)
    ensures
        r == base_of(p),
{
    let a = abs_piece(p);
    unpromote_piece(a).unwrap_or(a)
}

/// Material value of a piece kind.
pub open spec fn value_of(p: i8) -> i32 {
    if p == FU {
        100
    } else if p == KY {
        300
    } else if p == KE {
        350
    } else if p == GI {
        450
    } else if p == KI {
        500
    } else if p == KA {
        650
    } else if p == HI {
        700
    } else if p == OU {
        10000
    } else if p == TO {
        420
    } else if p == NY {
        400
    } else if p == NK {
        410
    } else if p == NG {
        460
    } else if p == UM {
        850
    } else if p == RY {
        950
    } else if p == HM {
        600
    } else if p == KO {
        400
    } else if p == WK {
        1200
    } else if p == NIN {
        650
    } else {
        0
    }
}

pub fn piece_value(p: i8) -> (v: i32)
    ensures
        v == value_of(p),
        0 <= v <= 10000,
{
    match p {
        FU => 100,
        KY => 300,
        KE => 350,
        GI => 450,
        KI => 500,
        KA => 650,
        HI => 700,
        OU => 10000,
        TO => 420,
        NY => 400,
        NK => 410,
        NG => 460,
        UM => 850,
        RY => 950,
        HM => 600,
        KO => 400,
        WK => 1200,
        NIN => 650,
        _ => 0,
    }
}

/// Index of square `(r, c)` in the flat board.
pub open spec fn sq_index(r: int, c: int) -> int {
    r * 9 + c
}

/// Row and column are recovered from a square's index.
pub proof fn lemma_sq_index(r: int, c: int)
    requires
        0 <= r,
        0 <= c < 9,
    ensures
        sq_index(r, c) / 9 == r,
        sq_index(r, c) % 9 == c,
{
    vstd::arithmetic::div_mod::lemma_fundamental_div_mod_converse(r * 9 + c, 9, r, c);
}

pub fn board_get(board: &Board, r: usize, c: usize) -> (v: i8)
    requires
        sq_index(r as int, c as int) < 81,
    ensures
        v == board@[sq_index(r as int, c as int)],
{
    board[r * BOARD_COLS + c]
}

pub fn board_set(board: &mut Board, r: usize, c: usize, val: i8)
    requires
        sq_index(r as int, c as int) < 81,
    ensures
        final(board)@ == old(board)@.update(sq_index(r as int, c as int), val),
{
    board[r * BOARD_COLS + c] = val;
}

/// Reading a square after writing it gives back what was written, and
/// leaves every other square as it was.
pub proof fn lemma_board_read_after_write(b: Seq<i8>, k: int, j: int, val: i8)
    requires
        b.len() == 81,
        0 <= k < 81,
        0 <= j < 81,
    ensures
        b.update(k, val)[k] == val,
        j != k ==> b.update(k, val)[j] == b[j],
{
}

pub fn piece_owner(val: i8) -> (o: i8)
    ensures
        o == owner_of(val),
{
    if val > 0 {
        SENTE
    } else if val < 0 {
        GOTE
    } else {
        0
    }
}

pub fn abs_piece(val: i8) -> (a: i8)
    ensures
        a == kind_of(val),
{
    if val >= 0 {
        val
    } else if val == i8::MIN {
        i8::MIN
    } else {
        -val
    }
}

/// A square value is its owner times its kind (for every value but `-128`,
/// whose magnitude does not fit in `i8`).
pub proof fn lemma_owner_times_kind(v: i8)
    requires
        v != i8::MIN,
    ensures
        owner_of(v) * kind_of(v) == v,
        kind_of(v) >= 0,
        kind_of(v) == 0 <==> owner_of(v) == 0,
{
    if v > 0 {
        assert(owner_of(v) * kind_of(v) == 1 * v);
    } else if v < 0 {
        assert(owner_of(v) * kind_of(v) == -1 * (-v));
    }
}

pub open spec fn is_promoted_kind(p: i8) -> bool {
    unpromoted(kind_of(p)) is Some
}

pub fn is_promoted(p: i8) -> (b: bool)
    ensures
        b == is_promoted_kind(p),
{
    let a = abs_piece(p);
    unpromote_piece(a).is_some()
}

} // verus!
