use vstd::prelude::*;

use crate::types::{Board, Hand, BOARD_SIZE};

verus! {

/// A board read from a flat list: the first 81 values, missing squares empty.
pub fn parse_board(board_flat: &[i8]) -> (board: Board)
    ensures
        forall|i: int|
            0 <= i < 81 ==> #[trigger] board@[i] == (if i < board_flat@.len() {
                board_flat@[i]
            } else {
                0i8
            }),
{
    let mut board: Board = [0i8; BOARD_SIZE];
    let n = if board_flat.len() < BOARD_SIZE {
        board_flat.len()
    } else {
        BOARD_SIZE
    };
    let mut i: usize = 0;
    while i < n
        invariant
            0 <= i <= n,
            n <= 81,
            n == (if board_flat@.len() < 81 {
                board_flat@.len()
            } else {
                81
            }),
            forall|j: int|
                0 <= j < 81 ==> #[trigger] board@[j] == (if j < i {
                    board_flat@[j]
                } else {
                    0i8
                }),
        decreases n - i,
    {
        board[i] = board_flat[i];
        i += 1;
    }
    board
}

/// A hand read from a list of counts: the first eight, missing counts zero.
fn parse_hand(counts: &[u8]) -> (hand: Hand)
    ensures
        forall|i: int|
            0 <= i < 8 ==> #[trigger] hand@[i] == (if i < counts@.len() {
                counts@[i]
            } else {
                0u8
            }),
{
    let mut hand: Hand = [0u8; 8];
    let n = if counts.len() < 8 {
        counts.len()
    } else {
        8
    };
    let mut i: usize = 0;
    while i < n
        invariant
            0 <= i <= n,
            n <= 8,
            n == (if counts@.len() < 8 {
                counts@.len()
            } else {
                8
            }),
            forall|j: int|
                0 <= j < 8 ==> #[trigger] hand@[j] == (if j < i {
                    counts@[j]
                } else {
                    0u8
                }),
        decreases n - i,
    {
        hand[i] = counts[i];
        i += 1;
    }
    hand
}

/// Sente's and gote's hands read from lists of counts.
pub fn parse_hands(sente_hand: &[u8], gote_hand: &[u8]) -> (hands: (Hand, Hand))
    ensures
        forall|i: int|
            0 <= i < 8 ==> #[trigger] hands.0@[i] == (if i < sente_hand@.len() {
                sente_hand@[i]
            } else {
                0u8
            }),
        forall|i: int|
            0 <= i < 8 ==> #[trigger] hands.1@[i] == (if i < gote_hand@.len() {
                gote_hand@[i]
            } else {
                0u8
            }),
{
    (parse_hand(sente_hand), parse_hand(gote_hand))
}

} // verus!
