use vstd::prelude::*;

use crate::types::{
    abs_piece, base_of, base_type, board_get, board_set, hand_index, hand_slot, kind_of,
    promote_piece, promoted, sq_index, Board, GameVariant, Hand, ShogiMove, EMPTY, HM, KI, KO,
    MOVE_TYPE_ABORT_NIN, MOVE_TYPE_DROP, MOVE_TYPE_MOVE, MOVE_TYPE_PROMOTE_NIN, NIN, SENTE, WK,
};

verus! {

/// Hand slot credited when `captured` is taken: none for an empty square;
/// in ouke a NIN or HM counts as a gold and a KO or WK is not kept; otherwise
/// the slot of the captured piece's base kind (none for a king).
pub open spec fn capture_slot(captured: i8, variant: GameVariant) -> Option<usize> {
    let a = kind_of(captured);
    if captured == EMPTY {
        None
    } else if variant == GameVariant::Ouke && (a == NIN || a == HM) {
        hand_slot(KI)
    } else if variant == GameVariant::Ouke && (a == KO || a == WK) {
        None
    } else {
        hand_slot(base_of(captured))
    }
}

/// The hand after taking `captured`.
pub open spec fn hand_after_capture(h: Seq<u8>, captured: i8, variant: GameVariant) -> Seq<u8> {
    match capture_slot(captured, variant) {
        Some(i) => h.update(i as int, (h[i as int] + 1) as u8),
        None => h,
    }
}

/// Taking `captured` does not overflow the hand count it credits.
pub open spec fn capture_fits(h: Seq<u8>, captured: i8, variant: GameVariant) -> bool {
    capture_slot(captured, variant) matches Some(i) ==> h[i as int] < 255
}

pub fn add_capture_to_hand(captured: i8, hand: &mut Hand, variant: GameVariant)
    requires
        capture_fits(old(hand)@, captured, variant),
    ensures
        final(hand)@ == hand_after_capture(old(hand)@, captured, variant),
{
    if captured == EMPTY {
        return ;
    }
    let a = abs_piece(captured);
    if variant == GameVariant::Ouke && (a == NIN || a == HM) {
        // NIN and HM are taken as golds.
        if let Some(idx) = hand_index(KI) {
            hand[idx] += 1;
        }
    } else if variant == GameVariant::Ouke && (a == KO || a == WK) {
        // KO and WK cannot be held.
    } else {
        let bt = base_type(captured);
        if let Some(idx) = hand_index(bt) {
            hand[idx] += 1;
        }
    }
}

pub open spec fn fits_i8(x: int) -> bool {
    i8::MIN <= x <= i8::MAX
}

/// The piece that arrives on the destination square of a board move.
pub open spec fn arriving_piece(piece: i8, promote: bool, owner: i8) -> i8 {
    if promote {
        match promoted(kind_of(piece)) {
            Some(q) => (owner * q) as i8,
            None => piece,
        }
    } else {
        piece
    }
}

/// The board after `owner` plays `m`.
pub open spec fn board_after(b: Seq<i8>, m: ShogiMove, owner: i8) -> Seq<i8> {
    let t = sq_index(m.tr as int, m.tc as int);
    let f = sq_index(m.fr as int, m.fc as int);
    if m.move_type == MOVE_TYPE_MOVE {
        b.update(f, EMPTY).update(t, arriving_piece(b[f], m.promote, owner))
    } else if m.move_type == MOVE_TYPE_DROP {
        b.update(t, (owner * m.piece) as i8)
    } else if m.move_type == MOVE_TYPE_PROMOTE_NIN {
        b.update(t, (owner * NIN) as i8)
    } else if m.move_type == MOVE_TYPE_ABORT_NIN {
        b.update(t, (owner * KI) as i8)
    } else {
        b
    }
}

/// The mover's hand after `m`: a capture is credited, a drop uses up one
/// piece of its kind (when one is held).
pub open spec fn mover_hand_after(h: Seq<u8>, b: Seq<i8>, m: ShogiMove, variant: GameVariant) -> Seq<
    u8,
> {
    if m.move_type == MOVE_TYPE_MOVE {
        hand_after_capture(h, b[sq_index(m.tr as int, m.tc as int)], variant)
    } else if m.move_type == MOVE_TYPE_DROP {
        match hand_slot(m.piece) {
            Some(i) => if h[i as int] > 0 {
                h.update(i as int, (h[i as int] - 1) as u8)
            } else {
                h
            },
            None => h,
        }
    } else {
        h
    }
}

/// The inputs on which playing `m` stays within the board and the integer
/// ranges: squares on the board, the placed value fits in `i8`, and a
/// capture does not overflow the mover's hand.
pub open spec fn move_fits(
    b: Seq<i8>,
    m: ShogiMove,
    sh: Seq<u8>,
    gh: Seq<u8>,
    owner: i8,
    variant: GameVariant,
) -> bool {
    let t = sq_index(m.tr as int, m.tc as int);
    let f = sq_index(m.fr as int, m.fc as int);
    let h = if owner == SENTE {
        sh
    } else {
        gh
    };
    if m.move_type == MOVE_TYPE_MOVE {
        &&& f < 81
        &&& t < 81
        &&& m.promote ==> (promoted(kind_of(b[f])) matches Some(q) ==> fits_i8(owner * q))
        &&& capture_fits(h, b[t], variant)
    } else if m.move_type == MOVE_TYPE_DROP {
        t < 81 && fits_i8(owner * m.piece)
    } else if m.move_type == MOVE_TYPE_PROMOTE_NIN {
        t < 81 && fits_i8(owner * NIN)
    } else if m.move_type == MOVE_TYPE_ABORT_NIN {
        t < 81 && fits_i8(owner * KI)
    } else {
        true
    }
}

pub fn apply_move(
    board: &Board,
    m: &ShogiMove,
    s_hand: &Hand,
    g_hand: &Hand,
    owner: i8,
    variant: GameVariant,
) -> (res: (Board, Hand, Hand))
    requires
        move_fits(board@, *m, s_hand@, g_hand@, owner, variant),
    ensures
        res.0@ == board_after(board@, *m, owner),
        res.1@ == (if owner == SENTE {
            mover_hand_after(s_hand@, board@, *m, variant)
        } else {
            s_hand@
        }),
        res.2@ == (if owner == SENTE {
            g_hand@
        } else {
            mover_hand_after(g_hand@, board@, *m, variant)
        }),
{
    let mut nb = *board;
    let mut nsh = *s_hand;
    let mut ngh = *g_hand;
    match m.move_type {
        MOVE_TYPE_MOVE => {
            let fr = m.fr as usize;
            let fc = m.fc as usize;
            let tr = m.tr as usize;
            let tc = m.tc as usize;
            let captured = board_get(&nb, tr, tc);
            let mut piece = board_get(&nb, fr, fc);
            board_set(&mut nb, fr, fc, EMPTY);
            if m.promote {
                let a = abs_piece(piece);
                if let Some(promoted) = promote_piece(a) {
                    piece = owner * promoted;
                }
            }
            board_set(&mut nb, tr, tc, piece);
            if owner == SENTE {
                add_capture_to_hand(captured, &mut nsh, variant);
            } else {
                add_capture_to_hand(captured, &mut ngh, variant);
            }
        },
        MOVE_TYPE_DROP => {
            let tr = m.tr as usize;
            let tc = m.tc as usize;
            board_set(&mut nb, tr, tc, owner * m.piece);
            if let Some(idx) = hand_index(m.piece) {
                if owner == SENTE {
                    if nsh[idx] > 0 {
                        nsh[idx] -= 1;
                    }
                } else {
                    if ngh[idx] > 0 {
                        ngh[idx] -= 1;
                    }
                }
            }
        },
        MOVE_TYPE_PROMOTE_NIN => {
            // Gold becomes NIN.
            let tr = m.tr as usize;
            let tc = m.tc as usize;
            board_set(&mut nb, tr, tc, owner * NIN);
        },
        MOVE_TYPE_ABORT_NIN => {
            // NIN reverts to gold.
            let tr = m.tr as usize;
            let tc = m.tc as usize;
            board_set(&mut nb, tr, tc, owner * KI);
        },
        _ => {},
    }
    (nb, nsh, ngh)
}

} // verus!
