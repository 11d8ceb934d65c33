use vstd::prelude::*;

use crate::types::{board_get, lemma_sq_index, sq_index, Board, Hand, BOARD_COLS, BOARD_ROWS};

verus! {

pub const TT_EXACT: u8 = 0;
pub const TT_ALPHA: u8 = 1;
pub const TT_BETA: u8 = 2;

#[derive(Clone, Copy, Debug, PartialEq, Eq, Structural)]
pub struct TTEntry {
    pub hash: u32,
    pub depth: u8,
    pub score: i32,
    pub flag: u8,
    /// Index into the move list of the position (not meaningful across calls).
    pub best_move: Option<usize>,
    pub gen: u16,
}

/// What a probe answers from the entry `e` of the probed slot: nothing when
/// the slot is empty, holds another position or an older generation, or was
/// searched less deeply; otherwise the exact score, or the bound when it
/// already decides the window.
pub open spec fn probe_answer(
    e: Option<TTEntry>,
    generation: u16,
    hash: u32,
    depth: u8,
    alpha: i32,
    beta: i32,
) -> Option<(i32, Option<usize>)> {
    match e {
        None => None,
        Some(en) => if en.hash != hash || en.gen != generation || en.depth < depth {
            None
        } else if en.flag == TT_EXACT {
            Some((en.score, en.best_move))
        } else if en.flag == TT_ALPHA && en.score <= alpha {
            Some((alpha, en.best_move))
        } else if en.flag == TT_BETA && en.score >= beta {
            Some((beta, en.best_move))
        } else {
            None
        },
    }
}

/// A store at `depth` overwrites the entry `e`: the slot is empty, the entry
/// is from another generation, or it was searched no deeper.
pub open spec fn store_replaces(e: Option<TTEntry>, generation: u16, depth: u8) -> bool {
    match e {
        None => true,
        Some(en) => en.gen != generation || en.depth <= depth,
    }
}

pub struct TranspositionTable {
    table: Vec<Option<TTEntry>>,
    mask: usize,
    pub generation: u16,
}

impl TranspositionTable {
    pub const FLAG_EXACT: u8 = TT_EXACT;
    pub const FLAG_ALPHA: u8 = TT_ALPHA;
    pub const FLAG_BETA: u8 = TT_BETA;

    /// The table's slots.
    pub closed spec fn slots(&self) -> Seq<Option<TTEntry>> {
        self.table@
    }

    /// The mask that maps a hash to its slot.
    pub closed spec fn slot_mask(&self) -> usize {
        self.mask
    }

    /// The current generation.
    pub closed spec fn current_gen(&self) -> u16 {
        self.generation
    }

    /// The slot count is the mask plus one.
    pub closed spec fn wf(&self) -> bool {
        self.table@.len() == self.mask as int + 1
    }

    /// The slot of a position hash: its low bits.
    pub open spec fn slot(&self, hash: u32) -> int {
        ((hash as usize) & self.slot_mask()) as int
    }

    pub proof fn lemma_slot_in_range(&self, hash: u32)
        requires
            self.wf(),
        ensures
            0 <= self.slot(hash) < self.slots().len(),
    {
        let h = hash as usize;
        let m = self.mask;
        assert(h & m <= m) by (bit_vector);
    }

    pub fn new(size_power: u8) -> (tt: Self)
        requires
            size_power < usize::BITS,
        ensures
            tt.wf(),
            tt.current_gen() == 0,
            tt.slots().len() == (1usize << size_power) as int,
            tt.slot_mask() == (1usize << size_power) - 1,
            forall|i: int| 0 <= i < tt.slots().len() ==> tt.slots()[i] is None,
    {
        let size = 1usize << size_power;
        assert(size > 0) by (bit_vector)
            requires
                size == 1usize << size_power,
                size_power < usize::BITS,
        ;
        let mut table: Vec<Option<TTEntry>> = Vec::with_capacity(size);
        let mut i: usize = 0;
        while i < size
            invariant
                0 <= i <= size,
                table@.len() == i,
                forall|j: int| 0 <= j < i ==> table@[j] is None,
            decreases size - i,
        {
            table.push(None);
            i += 1;
        }
        TranspositionTable { table, mask: size - 1, generation: 0 }
    }

    /// Starts a new generation: the stored entries stay but no longer answer
    /// probes.
    pub fn clear(&mut self)
        requires
            old(self).wf(),
        ensures
            final(self).wf(),
            final(self).slots() == old(self).slots(),
            final(self).slot_mask() == old(self).slot_mask(),
            final(self).current_gen() == old(self).current_gen().wrapping_add(1),
    {
        self.generation = self.generation.wrapping_add(1);
    }

    pub fn probe(&self, hash: u32, depth: u8, alpha: i32, beta: i32) -> (res: Option<
        (i32, Option<usize>),
    >)
        requires
            self.wf(),
        ensures
            res == probe_answer(
                self.slots()[self.slot(hash)],
                self.current_gen(),
                hash,
                depth,
                alpha,
                beta,
            ),
    {
        proof {
            self.lemma_slot_in_range(hash);
        }
        let idx = (hash as usize) & self.mask;
        let entry = match &self.table[idx] {
            Some(e) => e,
            None => return None,
        };
        if entry.hash != hash || entry.gen != self.generation {
            return None;
        }
        if entry.depth < depth {
            return None;
        }
        if entry.flag == TT_EXACT {
            Some((entry.score, entry.best_move))
        } else if entry.flag == TT_ALPHA && entry.score <= alpha {
            Some((alpha, entry.best_move))
        } else if entry.flag == TT_BETA && entry.score >= beta {
            Some((beta, entry.best_move))
        } else {
            None
        }
    }

    /// The public `generation` field, which the contracts call
    /// `current_gen()`.
    pub fn current_generation(&self) -> (g: u16)
        ensures
            g == self.current_gen(),
    {
        self.generation
    }

    /// Best move recorded for the position, whatever its depth, bounds or
    /// generation.
    pub fn get_best_move(&self, hash: u32) -> (res: Option<usize>)
        requires
            self.wf(),
        ensures
            res == (match self.slots()[self.slot(hash)] {
                Some(e) => if e.hash == hash {
                    e.best_move
                } else {
                    None
                },
                None => None,
            }),
    {
        proof {
            self.lemma_slot_in_range(hash);
        }
        let idx = (hash as usize) & self.mask;
        match &self.table[idx] {
            Some(entry) => if entry.hash == hash {
                entry.best_move
            } else {
                None
            },
            None => None,
        }
    }

    pub fn store(&mut self, hash: u32, depth: u8, score: i32, flag: u8, best_move: Option<usize>)
        requires
            old(self).wf(),
        ensures
            final(self).wf(),
            final(self).current_gen() == old(self).current_gen(),
            final(self).slot_mask() == old(self).slot_mask(),
            final(self).slots() == (if store_replaces(
                old(self).slots()[old(self).slot(hash)],
                old(self).current_gen(),
                depth,
            ) {
                old(self).slots().update(
                    old(self).slot(hash),
                    Some(TTEntry { hash, depth, score, flag, best_move, gen: old(self).current_gen() }),
                )
            } else {
                old(self).slots()
            }),
    {
        proof {
            self.lemma_slot_in_range(hash);
        }
        let idx = (hash as usize) & self.mask;
        let should_replace = match &self.table[idx] {
            None => true,
            Some(e) => e.gen != self.generation || e.depth <= depth,
        };
        if should_replace {
            let g = self.generation;
            self.table.set(
                idx,
                Some(TTEntry { hash, depth, score, flag, best_move, gen: g }),
            );
        }
    }
}

/// A store reads back: once `store` has written its entry (the slot was
/// empty, held an entry of another generation, or one searched no deeper),
/// a probe of the same position that asks for no more depth answers the
/// stored score by its flag (the exact score; the alpha bound when the
/// stored upper bound is at most alpha; the beta bound when the stored lower
/// bound is at least beta), and the position's best move is the stored one.
pub proof fn lemma_store_then_probe(
    tt1: TranspositionTable,
    tt2: TranspositionTable,
    hash: u32,
    depth: u8,
    score: i32,
    flag: u8,
    best_move: Option<usize>,
    want_depth: u8,
    alpha: i32,
    beta: i32,
)
    requires
        tt1.wf(),
        flag == TT_EXACT || flag == TT_ALPHA || flag == TT_BETA,
        store_replaces(tt1.slots()[tt1.slot(hash)], tt1.current_gen(), depth),
        tt2.current_gen() == tt1.current_gen(),
        tt2.slot_mask() == tt1.slot_mask(),
        tt2.slots() == tt1.slots().update(
            tt1.slot(hash),
            Some(TTEntry { hash, depth, score, flag, best_move, gen: tt1.current_gen() }),
        ),
        want_depth <= depth,
    ensures
        probe_answer(tt2.slots()[tt2.slot(hash)], tt2.current_gen(), hash, want_depth, alpha, beta)
            == (if flag == TT_EXACT {
            Some((score, best_move))
        } else if flag == TT_ALPHA {
            if score <= alpha {
                Some((alpha, best_move))
            } else {
                None
            }
        } else if score >= beta {
            Some((beta, best_move))
        } else {
            None
        }),
        (match tt2.slots()[tt2.slot(hash)] {
            Some(e) => if e.hash == hash {
                e.best_move
            } else {
                None
            },
            None => None,
        }) == best_move,
{
    tt1.lemma_slot_in_range(hash);
}

/// A store that is not replaced only happens over a deeper entry of the
/// current generation, which therefore stays.
pub proof fn lemma_store_keeps_deeper(tt: TranspositionTable, hash: u32, depth: u8)
    requires
        tt.wf(),
        !store_replaces(tt.slots()[tt.slot(hash)], tt.current_gen(), depth),
    ensures
        tt.slots()[tt.slot(hash)] matches Some(e) && e.gen == tt.current_gen() && e.depth > depth,
{
}

/// After a new generation starts, no entry stored in the previous one answers
/// a probe.
pub proof fn lemma_clear_hides(
    tt1: TranspositionTable,
    tt2: TranspositionTable,
    hash: u32,
    depth: u8,
    alpha: i32,
    beta: i32,
)
    requires
        tt1.wf(),
        tt2.slots() == tt1.slots(),
        tt2.slot_mask() == tt1.slot_mask(),
        tt2.current_gen() == tt1.current_gen().wrapping_add(1),
        tt1.slots()[tt1.slot(hash)] matches Some(e) && e.gen == tt1.current_gen(),
    ensures
        probe_answer(tt2.slots()[tt2.slot(hash)], tt2.current_gen(), hash, depth, alpha, beta)
            is None,
{
}

/// Position hash: a base-31 polynomial, modulo 2^32, over the values
/// `square + 50` in board order and then the sente and gote counts of each
/// hand kind in turn, seeded with 1 when sente is to move and 0 otherwise.
pub open spec fn hash_inputs(b: Seq<i8>, sh: Seq<u8>, gh: Seq<u8>) -> Seq<int> {
    Seq::new(81, |k: int| b[k] + 50) + Seq::new(
        16,
        |j: int|
            if j % 2 == 0 {
                sh[j / 2] as int
            } else {
                gh[j / 2] as int
            },
    )
}

pub open spec fn poly_hash(seed: int, xs: Seq<int>) -> int
    decreases xs.len(),
{
    if xs.len() == 0 {
        seed
    } else {
        ((poly_hash(seed, xs.drop_last()) * 31) % 0x1_0000_0000 + xs.last()) % 0x1_0000_0000
    }
}

pub open spec fn position_hash(b: Seq<i8>, sh: Seq<u8>, gh: Seq<u8>, maximizing: bool) -> u32 {
    poly_hash(
        if maximizing {
            1
        } else {
            0
        },
        hash_inputs(b, sh, gh),
    ) as u32
}

proof fn lemma_hand_inputs(b: Seq<i8>, sh: Seq<u8>, gh: Seq<u8>, i: int)
    requires
        0 <= i < 8,
    ensures
        hash_inputs(b, sh, gh).len() == 97,
        hash_inputs(b, sh, gh)[81 + 2 * i] == sh[i] as int,
        hash_inputs(b, sh, gh)[82 + 2 * i] == gh[i] as int,
{
    vstd::arithmetic::div_mod::lemma_fundamental_div_mod_converse(2 * i, 2, i, 0);
    vstd::arithmetic::div_mod::lemma_fundamental_div_mod_converse(2 * i + 1, 2, i, 1);
}

/// One hash step: multiply by 31 and add `v`, modulo 2^32.
fn hash_step(h: u32, v: i32) -> (r: u32)
    requires
        -1000 <= v <= 1000,
    ensures
        r == ((h * 31) % 0x1_0000_0000 + v) % 0x1_0000_0000,
{
    let m = h.wrapping_mul(31);
    assert(m == (h * 31) % 0x1_0000_0000);
    m.wrapping_add_signed(v)
}

pub fn hash_board(board: &Board, s_hand: &Hand, g_hand: &Hand, maximizing: bool) -> (h: u32)
    ensures
        h == position_hash(board@, s_hand@, g_hand@, maximizing),
{
    let ghost xs = hash_inputs(board@, s_hand@, g_hand@);
    let ghost seed: int = if maximizing {
        1
    } else {
        0
    };
    let mut h: u32 = if maximizing {
        1
    } else {
        0
    };
    assert(xs.take(0) =~= Seq::<int>::empty());
    let mut r: usize = 0;
    while r < BOARD_ROWS
        invariant
            0 <= r <= 9,
            xs == hash_inputs(board@, s_hand@, g_hand@),
            h == poly_hash(seed, xs.take(sq_index(r as int, 0))),
        decreases 9 - r,
    {
        let mut c: usize = 0;
        while c < BOARD_COLS
            invariant
                0 <= r < 9,
                0 <= c <= 9,
                xs == hash_inputs(board@, s_hand@, g_hand@),
                h == poly_hash(seed, xs.take(sq_index(r as int, c as int))),
            decreases 9 - c,
        {
            proof {
                lemma_sq_index(r as int, c as int);
            }
            let ghost k = sq_index(r as int, c as int);
            let v = board_get(board, r, c) as i32 + 50;
            assert(xs.take(k + 1).drop_last() =~= xs.take(k));
            assert(xs.take(k + 1).last() == v);
            h = hash_step(h, v);
            c += 1;
        }
        r += 1;
    }
    let mut i: usize = 0;
    while i < 8
        invariant
            0 <= i <= 8,
            xs == hash_inputs(board@, s_hand@, g_hand@),
            h == poly_hash(seed, xs.take(81 + 2 * i)),
        decreases 8 - i,
    {
        let ghost k = 81 + 2 * i;
        proof {
            lemma_hand_inputs(board@, s_hand@, g_hand@, i as int);
        }
        assert(xs.take(k + 1).drop_last() =~= xs.take(k));
        assert(xs.take(k + 1).last() == s_hand@[i as int]);
        h = hash_step(h, s_hand[i] as i32);
        assert(h == poly_hash(seed, xs.take(k + 1)));
        assert(xs.take(k + 2).drop_last() =~= xs.take(k + 1));
        assert(xs.take(k + 2).last() == g_hand@[i as int]);
        h = hash_step(h, g_hand[i] as i32);
        assert(h == poly_hash(seed, xs.take(k + 2)));
        i += 1;
    }
    assert(xs.take(97) =~= xs);
    h
}

/// Multiplying by 31, which is odd, keeps a value nonzero modulo 2^32.
proof fn lemma_times_31_nonzero(y: int)
    requires
        y % 0x1_0000_0000 != 0,
    ensures
        (31 * y) % 0x1_0000_0000 != 0,
{
    let m: int = 0x1_0000_0000;
    let inv: int = 3186588639;
    if (31 * y) % m == 0 {
        vstd::arithmetic::div_mod::lemma_mul_mod_noop_left(31 * y, inv, m);
        assert((31 * y) * inv == y + m * (23 * y)) by (nonlinear_arith)
            requires
                m == 0x1_0000_0000,
                inv == 3186588639,
        ;
        vstd::arithmetic::div_mod::lemma_mod_multiples_vanish(23 * y, y, m);
        assert(((31 * y) % m) * inv == 0);
    }
}

proof fn lemma_poly_hash_range(seed: int, xs: Seq<int>)
    requires
        0 <= seed < 0x1_0000_0000,
    ensures
        0 <= poly_hash(seed, xs) < 0x1_0000_0000,
    decreases xs.len(),
{
    if xs.len() > 0 {
        lemma_poly_hash_range(seed, xs.drop_last());
    }
}

/// Hashes that differ modulo 2^32 on a prefix still differ after the same
/// values are appended to both.
proof fn lemma_poly_hash_apart(s1: int, xs1: Seq<int>, s2: int, xs2: Seq<int>, k: int)
    requires
        xs1.len() == xs2.len(),
        0 <= k <= xs1.len(),
        forall|i: int| k <= i < xs1.len() ==> xs1[i] == xs2[i],
        (poly_hash(s1, xs1.take(k)) - poly_hash(s2, xs2.take(k))) % 0x1_0000_0000 != 0,
    ensures
        (poly_hash(s1, xs1) - poly_hash(s2, xs2)) % 0x1_0000_0000 != 0,
    decreases xs1.len(),
{
    let m: int = 0x1_0000_0000;
    if k == xs1.len() {
        assert(xs1.take(k) =~= xs1);
        assert(xs2.take(k) =~= xs2);
    } else {
        let p1 = xs1.drop_last();
        let p2 = xs2.drop_last();
        assert(p1.take(k) =~= xs1.take(k));
        assert(p2.take(k) =~= xs2.take(k));
        lemma_poly_hash_apart(s1, p1, s2, p2, k);
        let h1 = poly_hash(s1, p1);
        let h2 = poly_hash(s2, p2);
        let x = xs1.last();
        assert(xs2.last() == x);
        lemma_times_31_nonzero(h1 - h2);
        let a = (h1 * 31) % m;
        let b = (h2 * 31) % m;
        vstd::arithmetic::div_mod::lemma_sub_mod_noop(a + x, b + x, m);
        vstd::arithmetic::div_mod::lemma_sub_mod_noop(h1 * 31, h2 * 31, m);
        assert(a + x - (b + x) == a - b);
        assert(h1 * 31 - h2 * 31 == 31 * (h1 - h2)) by (nonlinear_arith);
    }
}

proof fn lemma_poly_hash_one_change(s: int, xs1: Seq<int>, xs2: Seq<int>, p: int)
    requires
        xs1.len() == xs2.len(),
        0 <= p < xs1.len(),
        forall|i: int| 0 <= i < xs1.len() && i != p ==> xs1[i] == xs2[i],
        xs1[p] != xs2[p],
        -0x1_0000_0000 < xs1[p] - xs2[p] < 0x1_0000_0000,
    ensures
        (poly_hash(s, xs1) - poly_hash(s, xs2)) % 0x1_0000_0000 != 0,
{
    let m: int = 0x1_0000_0000;
    let t1 = xs1.take(p + 1);
    let t2 = xs2.take(p + 1);
    assert(t1.drop_last() =~= t2.drop_last());
    let h = poly_hash(s, t1.drop_last());
    let a = (h * 31) % m;
    vstd::arithmetic::div_mod::lemma_sub_mod_noop(a + xs1[p], a + xs2[p], m);
    assert(a + xs1[p] - (a + xs2[p]) == xs1[p] - xs2[p]);
    vstd::arithmetic::div_mod::lemma_sub_mod_noop(poly_hash(s, t1), poly_hash(s, t2), m);
    lemma_poly_hash_apart(s, xs1, s, xs2, p + 1);
}

/// The position hash sees a change of any one square.
pub proof fn lemma_hash_sees_square_change(
    b: Seq<i8>,
    sh: Seq<u8>,
    gh: Seq<u8>,
    maximizing: bool,
    k: int,
    v: i8,
)
    requires
        b.len() == 81,
        sh.len() == 8,
        gh.len() == 8,
        0 <= k < 81,
        v != b[k],
    ensures
        position_hash(b.update(k, v), sh, gh, maximizing) != position_hash(b, sh, gh, maximizing),
{
    let seed: int = if maximizing { 1 } else { 0 };
    let xs1 = hash_inputs(b.update(k, v), sh, gh);
    let xs2 = hash_inputs(b, sh, gh);
    assert forall|i: int| 0 <= i < xs1.len() && i != k implies xs1[i] == xs2[i] by {
        if i >= 81 {
            assert(xs1[i] == xs2[i]);
        }
    }
    lemma_poly_hash_one_change(seed, xs1, xs2, k);
    lemma_poly_hash_range(seed, xs1);
    lemma_poly_hash_range(seed, xs2);
}

/// The position hash sees a change of any one hand count, sente's
/// (`sente`) or gote's.
pub proof fn lemma_hash_sees_hand_change(
    b: Seq<i8>,
    sh: Seq<u8>,
    gh: Seq<u8>,
    maximizing: bool,
    sente: bool,
    i: int,
    v: u8,
)
    requires
        b.len() == 81,
        sh.len() == 8,
        gh.len() == 8,
        0 <= i < 8,
        v != (if sente { sh[i] } else { gh[i] }),
    ensures
        position_hash(b, if sente { sh.update(i, v) } else { sh }, if sente { gh } else { gh.update(i, v) }, maximizing)
            != position_hash(b, sh, gh, maximizing),
{
    let seed: int = if maximizing { 1 } else { 0 };
    let sh2 = if sente { sh.update(i, v) } else { sh };
    let gh2 = if sente { gh } else { gh.update(i, v) };
    let xs1 = hash_inputs(b, sh2, gh2);
    let xs2 = hash_inputs(b, sh, gh);
    let p = if sente { 81 + 2 * i } else { 82 + 2 * i };
    lemma_hand_inputs(b, sh2, gh2, i);
    lemma_hand_inputs(b, sh, gh, i);
    assert forall|j: int| 0 <= j < xs1.len() && j != p implies xs1[j] == xs2[j] by {
        if j >= 81 {
            let q = (j - 81) / 2;
            assert(0 <= q < 8);
            if q != i {
                lemma_hand_inputs(b, sh2, gh2, q);
                lemma_hand_inputs(b, sh, gh, q);
                assert(j == 81 + 2 * q || j == 82 + 2 * q);
            } else {
                assert(j == 81 + 2 * q || j == 82 + 2 * q);
            }
        }
    }
    lemma_poly_hash_one_change(seed, xs1, xs2, p);
    lemma_poly_hash_range(seed, xs1);
    lemma_poly_hash_range(seed, xs2);
}

/// The position hash tells which side is to move.
pub proof fn lemma_hash_sees_side_to_move(b: Seq<i8>, sh: Seq<u8>, gh: Seq<u8>)
    ensures
        position_hash(b, sh, gh, true) != position_hash(b, sh, gh, false),
{
    let xs = hash_inputs(b, sh, gh);
    assert(xs.take(0) =~= Seq::<int>::empty());
    lemma_poly_hash_apart(1, xs, 0, xs, 0);
    lemma_poly_hash_range(1, xs);
    lemma_poly_hash_range(0, xs);
}

} // verus!
