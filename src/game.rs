//! The executable board: cell values plus the constraint masks derived from
//! them, changed only by invertible placements, with the decision-point
//! selectors, parsing and formatting.
use vstd::prelude::*;

use crate::bits::{
    bit128, bit16, count_bits, lemma_all_set, lemma_and16, lemma_count_true, lemma_zero16,
    popcount9, ALL81, ALL9,
};
use crate::grid::{
    cell_of, cell_weight, complete, consistent, count_free, dead_point, free_cell, house_of,
    is_solution, legal, lemma_cell_of, lemma_clash_stays, lemma_complete_is_solution,
    lemma_count_free_update, lemma_empty_grid, lemma_house_of, lemma_illegal_clashes,
    lemma_slot_id, open_slot, slot_open, slot_weight, weights_at_least, first_zero,
    lemma_first_zero, point_weight, first_best, lemma_slot_point,
};
use crate::state::{lemma_cleared_well_formed, lemma_placed_well_formed, BoardState};

verus! {

/// Why a text is not a board.
#[derive(Debug, Clone, Copy, PartialEq, Eq, Structural)]
pub enum ParseGameError {
    /// The text does not hold exactly 81 characters.
    IncorrectLength,
    /// The text holds a character other than `.` and the digits.
    IllegalCharacter(char),
}

/// A character that may stand for a cell: `.` or `0` for an empty cell,
/// `1` to `9` for a digit.
pub open spec fn cell_char(c: char) -> bool {
    c == '.' || ('0' <= c && c <= '9')
}

/// The cell value that a cell character stands for.
pub open spec fn char_value(c: char) -> u8 {
    if c == '.' {
        0
    } else {
        (c as u32 - '0' as u32) as u8
    }
}

/// The character that shows a cell value: `.` for an empty cell.
pub open spec fn value_char(x: u8) -> char {
    if x == 0 {
        '.'
    } else {
        (x + 48u8) as char
    }
}

/// What parsing `s` gives: the first character that stands for no cell, else
/// a wrong length, else the 81 cell values.
pub open spec fn parse_result(s: Seq<char>, r: Result<Seq<u8>, ParseGameError>) -> bool {
    match r {
        Err(ParseGameError::IllegalCharacter(c)) => exists|i: int|
            0 <= i < s.len() && s[i] == c && !cell_char(c) && forall|j: int|
                0 <= j < i ==> #[trigger] cell_char(s[j]),
        Err(ParseGameError::IncorrectLength) => {
            &&& forall|j: int| 0 <= j < s.len() ==> #[trigger] cell_char(s[j])
            &&& s.len() != 81
        },
        Ok(cells) => {
            &&& forall|j: int| 0 <= j < s.len() ==> #[trigger] cell_char(s[j])
            &&& s.len() == 81
            &&& cells == s.map_values(|c: char| char_value(c))
        },
    }
}

/// Relies on `String::push`: appends one character.
#[verifier::external_body]
fn push_char(s: &mut String, c: char)
    ensures
        final(s)@ == old(s)@.push(c),
{
    s.push(c);
}

/// What the selector found on a board.
#[derive(Clone, Copy)]
pub enum ShowKinds {
    /// Cell `.0` is the best decision point; `.1` has bit `v` set for each
    /// digit `v + 1` that it may take.
    PICKIDX(usize, u16),
    /// Slot `.0 == [ht, id]`, digit `id % 9 + 1` in house `id / 9` of type
    /// `ht`, is the best decision point; `.1` has bit `p` set for each
    /// position of that house that may take the digit.
    PICKVAL([usize; 2], u16),
    /// Every cell is filled and every house holds every digit.
    SOLVED,
    /// Some decision point has no option left, or two givens clash.
    FAILED,
}

/// `c` lists the options of the free cell `i`, and no decision point has
/// fewer.
pub open spec fn best_cell(b: Seq<u8>, i: int, c: u16) -> bool {
    &&& free_cell(b, i)
    &&& c <= ALL9
    &&& forall|v: int| 0 <= v < 9 ==> #[trigger] bit16(c, v) == legal(b, i, v + 1)
    &&& popcount9(c) == cell_weight(b, i)
    &&& weights_at_least(b, popcount9(c) as int)
}

/// `c` lists the options of slot `id` of house type `ht`, and no decision
/// point has fewer.
pub open spec fn best_slot(b: Seq<u8>, ht: int, id: int, c: u16) -> bool {
    &&& 0 <= id < 81
    &&& open_slot(b, ht, id / 9, id % 9)
    &&& c <= ALL9
    &&& forall|p: int|
        0 <= p < 9 ==> #[trigger] bit16(c, p) == legal(b, cell_of(ht, id / 9, p), id % 9 + 1)
    &&& popcount9(c) == slot_weight(b, ht, id / 9, id % 9)
    &&& weights_at_least(b, popcount9(c) as int)
}

/// Cells below `n` that are free have at least one option, and at least `w`.
spec fn cells_scanned(b: Seq<u8>, n: int, w: int) -> bool {
    forall|j: int| 0 <= j < n && free_cell(b, j) ==> 1 <= #[trigger] cell_weight(b, j) && w <= cell_weight(b, j)
}

/// Open slots before slot `n` of house type `t` have at least one option,
/// and at least `w`.
spec fn slots_scanned(b: Seq<u8>, t: int, n: int, w: int) -> bool {
    forall|t2: int, id2: int|
        0 <= t2 < 3 && 0 <= id2 < 81 && (t2 < t || (t2 == t && id2 < n)) && #[trigger] open_slot(
            b,
            t2,
            id2 / 9,
            id2 % 9,
        ) ==> 1 <= slot_weight(b, t2, id2 / 9, id2 % 9) && w <= slot_weight(b, t2, id2 / 9, id2 % 9)
}

/// The running choice of the selector: nothing yet at weight 10, or a
/// decision point whose option list has `w` entries.
spec fn running_best(b: Seq<u8>, best: ShowKinds, w: int) -> bool {
    match best {
        ShowKinds::SOLVED => w == 10,
        ShowKinds::PICKIDX(i, c) => {
            &&& free_cell(b, i as int)
            &&& c <= ALL9
            &&& forall|v: int| 0 <= v < 9 ==> #[trigger] bit16(c, v) == legal(b, i as int, v + 1)
            &&& popcount9(c) == cell_weight(b, i as int)
            &&& popcount9(c) == w
        },
        ShowKinds::PICKVAL(vt, c) => {
            &&& vt[0] < 3
            &&& vt[1] < 81
            &&& open_slot(b, vt[0] as int, vt[1] as int / 9, vt[1] as int % 9)
            &&& c <= ALL9
            &&& forall|p: int|
                0 <= p < 9 ==> #[trigger] bit16(c, p) == legal(
                    b,
                    cell_of(vt[0] as int, vt[1] as int / 9, p),
                    vt[1] as int % 9 + 1,
                )
            &&& popcount9(c) == slot_weight(b, vt[0] as int, vt[1] as int / 9, vt[1] as int % 9)
            &&& popcount9(c) == w
        },
        ShowKinds::FAILED => false,
    }
}

/// The scan position of the decision point that the selector names, or -1.
pub open spec fn point_of(r: ShowKinds) -> int {
    match r {
        ShowKinds::PICKIDX(i, _) => i as int,
        ShowKinds::PICKVAL(vt, _) => 81 + vt[0] * 81 + vt[1],
        _ => -1,
    }
}

/// The weight of the running choice: 10 for none.
spec fn best_weight_of(b: Seq<u8>, r: ShowKinds) -> int {
    if point_of(r) < 0 {
        10
    } else {
        point_weight(b, point_of(r))
    }
}

/// A sudoku board: cell values and the constraint masks derived from them.
#[derive(Clone, PartialEq, Eq)]
pub struct Game {
    board: [u8; 81],
    frees: [u128; 4],
    house_masks: [u16; 27],
    occupied: [u16; 27],
    value_masks: [u16; 27],
    conflict: bool,
}

impl View for Game {
    type V = BoardState;

    closed spec fn view(&self) -> BoardState {
        BoardState {
            cells: self.board@,
            frees: self.frees@,
            house_masks: self.house_masks@,
            occupied: self.occupied@,
            value_masks: self.value_masks@,
            conflict: self.conflict,
        }
    }
}

/// Broadcasts three bits to the nine positions of a house: bit `t` of `j`
/// to bits `3 * t`, `3 * t + 1` and `3 * t + 2`.
fn ray(j: u16) -> (r: u16)
    requires
        j < 8,
    ensures
        r <= ALL9,
        forall|p: int| 0 <= p < 9 ==> bit16(r, p) == bit16(j, p / 3),
{
    let x = (j & 1) | ((j & 2) << 2u16) | ((j & 4) << 4u16);
    let r = x | (x << 1u16) | (x << 2u16);
    assert forall|p: int| 0 <= p < 9 implies bit16(r, p) == bit16(j, p / 3) by {
        let q = p as u16;
        assert(bit16(r, q as int) == bit16(j, (q / 3) as int)) by (bit_vector)
            requires
                x == (j & 1) | ((j & 2) << 2u16) | ((j & 4) << 4u16),
                r == x | (x << 1u16) | (x << 2u16),
                j < 8,
                q < 9,
        ;
    }
    assert(r <= 0x1FF) by (bit_vector)
        requires
            x == (j & 1) | ((j & 2) << 2u16) | ((j & 4) << 4u16),
            r == x | (x << 1u16) | (x << 2u16),
            j < 8,
    ;
    r
}

/// Positions of a row (or of a box, by its rows) whose crossing unit of the
/// `i`-th band is still open in `mask`: bit `p` is bit `3 * i + p / 3` of
/// `mask`.
fn get_ray_r(mask: u16, i: usize) -> (r: u16)
    requires
        i < 3,
    ensures
        r <= ALL9,
        forall|p: int| 0 <= p < 9 ==> bit16(r, p) == bit16(mask, 3 * i + p / 3),
{
    let s = (3 * i) as u16;
    let j = 7u16 & (mask >> s);
    assert(j < 8) by (bit_vector)
        requires
            j == 7u16 & (mask >> s),
    ;
    let r = ray(j);
    assert forall|p: int| 0 <= p < 9 implies bit16(r, p) == bit16(mask, 3 * i + p / 3) by {
        let t = (p / 3) as u16;
        assert(bit16(j, t as int) == bit16(mask, (s + t) as int)) by (bit_vector)
            requires
                j == 7u16 & (mask >> s),
                s <= 6,
                t < 3,
        ;
    }
    r
}

/// Positions of a column whose box in column band `i` is still open in
/// `mask`: bit `p` is bit `p / 3 * 3 + i` of `mask`.
fn get_ray_c(mask: u16, i: usize) -> (r: u16)
    requires
        i < 3,
    ensures
        r <= ALL9,
        forall|p: int| 0 <= p < 9 ==> bit16(r, p) == bit16(mask, p / 3 * 3 + i),
{
    let s = i as u16;
    let j = ((mask >> s) & 1) | ((mask >> (s + 2)) & 2) | ((mask >> (s + 4)) & 4);
    assert(j < 8) by (bit_vector)
        requires
            j == ((mask >> s) & 1) | ((mask >> (s + 2)) & 2) | ((mask >> (s + 4)) & 4),
    ;
    let r = ray(j);
    assert forall|p: int| 0 <= p < 9 implies bit16(r, p) == bit16(mask, p / 3 * 3 + i) by {
        let t = (p / 3) as u16;
        assert(bit16(j, t as int) == bit16(mask, (t * 3 + s) as int)) by (bit_vector)
            requires
                j == ((mask >> s) & 1) | ((mask >> (s + 2)) & 2) | ((mask >> (s + 4)) & 4),
                s < 3,
                t < 3,
        ;
    }
    r
}

/// Positions of a box whose column in the `i`-th column band is still open
/// in `mask`: bit `p` is bit `3 * i + p % 3` of `mask`.
fn get_yar_r(mask: u16, i: usize) -> (r: u16)
    requires
        i < 3,
    ensures
        r <= ALL9,
        forall|p: int| 0 <= p < 9 ==> bit16(r, p) == bit16(mask, 3 * i + p % 3),
{
    let s = (3 * i) as u16;
    let j = 7u16 & (mask >> s);
    let r = j | j << 3u16 | j << 6u16;
    assert forall|p: int| 0 <= p < 9 implies bit16(r, p) == bit16(mask, 3 * i + p % 3) by {
        let q = p as u16;
        assert(bit16(r, q as int) == bit16(mask, (s + q % 3) as int)) by (bit_vector)
            requires
                j == 7u16 & (mask >> s),
                r == j | j << 3u16 | j << 6u16,
                s <= 6,
                q < 9,
        ;
    }
    assert(r <= 0x1FF) by (bit_vector)
        requires
            j == 7u16 & (mask >> s),
            r == j | j << 3u16 | j << 6u16,
    ;
    r
}

/// The index of cell `p` of house `hi` of type `ht`.
fn cell_index(ht: usize, hi: usize, p: usize) -> (r: usize)
    requires
        ht < 3,
        hi < 9,
        p < 9,
    ensures
        r == cell_of(ht as int, hi as int, p as int),
        r < 81,
{
    proof {
        lemma_cell_of(ht as int, hi as int, p as int);
    }
    if ht == 0 {
        hi * 9 + p
    } else if ht == 1 {
        p * 9 + hi
    } else {
        (hi / 3 * 3 + p / 3) * 9 + hi % 3 * 3 + p % 3
    }
}

impl Game {
    /// Applies the toggles of digit `val + 1` at cell `idx` to every mask.
    fn update_masks(&mut self, idx: usize, val: usize)
        requires
            idx < 81,
            val < 9,
        ensures
            final(self)@ == old(self)@.toggled(idx as int, val as int),
    {
        proof {
            lemma_house_of(0, idx as int);
            lemma_house_of(1, idx as int);
            lemma_house_of(2, idx as int);
        }
        let r = idx / 9;
        let c = idx % 9;
        let k = idx / 27 * 3 + idx % 9 / 3;
        let l = idx / 9 % 3 * 3 + idx % 3;
        self.frees[0] = self.frees[0] ^ (1u128 << ((r * 9 + val) as u128));
        self.frees[1] = self.frees[1] ^ (1u128 << ((c * 9 + val) as u128));
        self.frees[2] = self.frees[2] ^ (1u128 << ((k * 9 + val) as u128));
        self.frees[3] = self.frees[3] ^ (1u128 << (idx as u128));
        let bit = 1u16 << (val as u16);
        self.house_masks[r] = self.house_masks[r] ^ bit;
        self.house_masks[9 + c] = self.house_masks[9 + c] ^ bit;
        self.house_masks[18 + k] = self.house_masks[18 + k] ^ bit;
        self.occupied[r] = self.occupied[r] ^ (1u16 << (c as u16));
        self.occupied[9 + c] = self.occupied[9 + c] ^ (1u16 << (r as u16));
        self.occupied[18 + k] = self.occupied[18 + k] ^ (1u16 << (l as u16));
        self.value_masks[val * 3] = self.value_masks[val * 3] ^ (1u16 << (r as u16));
        self.value_masks[val * 3 + 1] = self.value_masks[val * 3 + 1] ^ (1u16 << (c as u16));
        self.value_masks[val * 3 + 2] = self.value_masks[val * 3 + 2] ^ (1u16 << (k as u16));
    }

    /// Writes digit `val + 1` into the free cell `idx`, where it must be a
    /// candidate.
    pub fn unsafe_choose(&mut self, idx: usize, val: usize)
        requires
            old(self)@.well_formed(),
            !old(self)@.conflict,
            val < 9,
            legal(old(self)@.cells, idx as int, val + 1),
        ensures
            final(self)@ == old(self)@.placed(idx as int, val as int),
            final(self)@.well_formed(),
            !final(self)@.conflict,
            final(self)@.cells == old(self)@.cells.update(idx as int, (val + 1) as u8),
            count_free(final(self)@.cells) + 1 == count_free(old(self)@.cells),
    {
        proof {
            lemma_placed_well_formed(self@, idx as int, val as int);
            lemma_count_free_update(self@.cells, idx as int, (val + 1) as u8);
        }
        self.board[idx] = 1 + val as u8;
        self.update_masks(idx, val);
    }

    /// Empties the filled cell `idx`, undoing the toggles of its digit.
    pub fn unsafe_unchoose(&mut self, idx: usize)
        requires
            old(self)@.well_formed(),
            !old(self)@.conflict,
            idx < 81,
            old(self)@.cells[idx as int] != 0,
        ensures
            final(self)@ == old(self)@.cleared(idx as int),
            final(self)@.well_formed(),
            !final(self)@.conflict,
            final(self)@.cells == old(self)@.cells.update(idx as int, 0u8),
            count_free(final(self)@.cells) == count_free(old(self)@.cells) + 1,
    {
        proof {
            lemma_cleared_well_formed(self@, idx as int);
            lemma_count_free_update(self@.cells, idx as int, 0u8);
        }
        let val = self.board[idx] - 1;
        self.board[idx] = 0;
        self.update_masks(idx, val as usize);
    }

    /// Writes digit `id % 9 + 1` at position `idx` of house `id / 9` of type
    /// `vht[0]`, where `vht[1]` is `id`, and returns the cell written.
    pub fn unsafe_choose_alt(&mut self, vht: [usize; 2], idx: usize) -> (r: usize)
        requires
            old(self)@.well_formed(),
            !old(self)@.conflict,
            vht[0] < 3,
            vht[1] < 81,
            idx < 9,
            legal(
                old(self)@.cells,
                cell_of(vht[0] as int, (vht[1] / 9) as int, idx as int),
                (vht[1] % 9 + 1) as int,
            ),
        ensures
            r == cell_of(vht[0] as int, (vht[1] / 9) as int, idx as int),
            final(self)@ == old(self)@.placed(r as int, (vht[1] % 9) as int),
            final(self)@.well_formed(),
            !final(self)@.conflict,
            final(self)@.cells == old(self)@.cells.update(r as int, (vht[1] % 9 + 1) as u8),
            count_free(final(self)@.cells) + 1 == count_free(old(self)@.cells),
    {
        let ht = vht[0];
        let id = vht[1];
        let true_idx = cell_index(ht, id / 9, idx);
        self.unsafe_choose(true_idx, id % 9);
        true_idx
    }

    /// The digits that the free cell `idx` may still take: bit `v` for digit
    /// `v + 1`.
    fn candidates(&self, idx: usize) -> (c: u16)
        requires
            self@.well_formed(),
            !self@.conflict,
            idx < 81,
            self@.cells[idx as int] == 0,
        ensures
            c <= ALL9,
            forall|v: int| 0 <= v < 9 ==> bit16(c, v) == legal(self@.cells, idx as int, v + 1),
    {
        proof {
            lemma_house_of(0, idx as int);
            lemma_house_of(1, idx as int);
            lemma_house_of(2, idx as int);
        }
        let r = idx / 9;
        let col = idx % 9;
        let k = idx / 27 * 3 + idx % 9 / 3;
        let a = self.house_masks[r];
        let b = self.house_masks[9 + col];
        let d = self.house_masks[18 + k];
        let c = a & b & d;
        proof {
            let cells = self@.cells;
            assert forall|v: int| 0 <= v < 9 implies bit16(c, v) == legal(cells, idx as int, v + 1) by {
                lemma_and16(a & b, d, v);
                lemma_and16(a, b, v);
                assert(self@.masks_agree());
                assert(bit16(a, v) == slot_open(cells, 0, r as int, v));
                assert(bit16(b, v) == slot_open(cells, 1, col as int, v));
                assert(bit16(d, v) == slot_open(cells, 2, k as int, v));
                assert(bit16(c, v) == (bit16(a, v) && bit16(b, v) && bit16(d, v)));
            }
            lemma_and16(a & b, d, 0);
            lemma_and16(a, b, 0);
            assert(self.house_masks@[r as int] <= ALL9);
        }
        c
    }

    /// The positions of house `id / 9` of type `ht` that may still take digit
    /// `id % 9 + 1`, a digit missing from that house: bit `p` for position `p`.
    fn pos_indices(&self, ht: usize, id: usize) -> (c: u16)
        requires
            self@.well_formed(),
            !self@.conflict,
            ht < 3,
            id < 81,
            slot_open(self@.cells, ht as int, (id / 9) as int, (id % 9) as int),
        ensures
            c <= ALL9,
            forall|p: int|
                0 <= p < 9 ==> bit16(c, p) == legal(
                    self@.cells,
                    cell_of(ht as int, (id / 9) as int, p),
                    (id % 9 + 1) as int,
                ),
    {
        let hi = id / 9;
        let val = id % 9;
        let band = hi / 3;
        let stack = hi % 3;
        let a = self.occupied[ht * 9 + hi];
        let (x, y) = if ht == 0 {
            (self.value_masks[val * 3 + 1], get_ray_r(self.value_masks[val * 3 + 2], band))
        } else if ht == 1 {
            (self.value_masks[val * 3], get_ray_c(self.value_masks[val * 3 + 2], band))
        } else {
            (get_ray_r(self.value_masks[val * 3], band), get_yar_r(self.value_masks[val * 3 + 1], stack))
        };
        let c = a & x & y;
        proof {
            let cells = self@.cells;
            assert forall|p: int| 0 <= p < 9 implies bit16(c, p) == legal(
                cells,
                cell_of(ht as int, hi as int, p),
                val + 1,
            ) by {
                let cell = cell_of(ht as int, hi as int, p);
                lemma_cell_of(ht as int, hi as int, p);
                lemma_and16(a & x, y, p);
                lemma_and16(a, x, p);
                assert(cells[cell_of(ht as int, hi as int, p)] == 0 <==> bit16(a, p));
                let row = house_of(0, cell);
                let col = house_of(1, cell);
                let bx = house_of(2, cell);
                assert(self@.masks_agree());
                assert(slot_open(cells, ht as int, hi as int, val as int));
                if ht == 0 {
                    assert(bit16(x, p) == slot_open(cells, 1, col, val as int));
                    assert(bit16(y, p) == slot_open(cells, 2, bx, val as int));
                } else if ht == 1 {
                    assert(bit16(x, p) == slot_open(cells, 0, row, val as int));
                    assert(bit16(y, p) == slot_open(cells, 2, bx, val as int));
                } else {
                    assert(bit16(x, p) == slot_open(cells, 0, row, val as int));
                    assert(bit16(y, p) == slot_open(cells, 1, col, val as int));
                }
            }
            lemma_and16(a & x, y, 0);
            lemma_and16(a, x, 0);
            assert(self.occupied@[ht * 9 + hi] <= ALL9);
        }
        c
    }

    /// Finds the decision point with the fewest options: a free cell (which
    /// digit) or an open slot (where a missing digit goes in its house).
    /// Reports `FAILED` when some point has no option or two givens clash,
    /// and `SOLVED` when no point is left.
    pub fn showbestfree(&self) -> (r: ShowKinds)
        requires
            self@.well_formed(),
        ensures
            r is SOLVED <==> !self@.conflict && complete(self@.cells),
            r is SOLVED ==> is_solution(self@.cells),
            r is FAILED <==> self@.conflict || dead_point(self@.cells),
            r matches ShowKinds::PICKIDX(i, c) ==> best_cell(self@.cells, i as int, c),
            r matches ShowKinds::PICKVAL(vt, c) ==> vt[0] < 3 && best_slot(
                self@.cells,
                vt[0] as int,
                vt[1] as int,
                c,
            ),
            !(r is FAILED) ==> point_of(r) == first_best(self@.cells, 324),
    {
        if self.conflict {
            return ShowKinds::FAILED;
        }
        let ghost b = self@.cells;
        let mut best_value = ShowKinds::SOLVED;
        let mut best_weight: u32 = 10;
        let f = self.frees[3];
        let mut i: usize = 0;
        while i < 81
            invariant
                self@.well_formed(),
                !self@.conflict,
                b == self@.cells,
                f == self@.frees[3],
                i <= 81,
                1 <= best_weight <= 10,
                running_best(b, best_value, best_weight as int),
                cells_scanned(b, i as int, best_weight as int),
                point_of(best_value) == first_best(b, i as int),
                best_weight == best_weight_of(b, best_value),
            decreases 81 - i,
        {
            if (f >> (i as u128)) & 1u128 == 1u128 {
                proof {
                    assert(bit128(f, i as int));
                }
                let c = self.candidates(i);
                let w = count_bits(c);
                proof {
                    lemma_count_true(9, |v: int| bit16(c, v), |v: int| legal(b, i as int, v + 1));
                }
                if w == 0 {
                    assert(free_cell(b, i as int) && cell_weight(b, i as int) == 0);
                    return ShowKinds::FAILED;
                }
                if w < best_weight {
                    best_weight = w;
                    best_value = ShowKinds::PICKIDX(i, c);
                }
            } else {
                proof {
                    assert(!bit128(f, i as int));
                }
            }
            proof {
                assert(point_weight(b, i as int) == point_weight(b, i as int));
            }
            i = i + 1;
        }
        let mut t: usize = 0;
        while t < 3
            invariant
                self@.well_formed(),
                !self@.conflict,
                b == self@.cells,
                t <= 3,
                1 <= best_weight <= 10,
                running_best(b, best_value, best_weight as int),
                cells_scanned(b, 81, best_weight as int),
                slots_scanned(b, t as int, 0, best_weight as int),
                point_of(best_value) == first_best(b, 81 + t * 81),
                best_weight == best_weight_of(b, best_value),
            decreases 3 - t,
        {
            let f = self.frees[t];
            let mut id: usize = 0;
            while id < 81
                invariant
                    self@.well_formed(),
                    !self@.conflict,
                    b == self@.cells,
                    t < 3,
                    f == self@.frees[t as int],
                    id <= 81,
                    1 <= best_weight <= 10,
                    running_best(b, best_value, best_weight as int),
                    cells_scanned(b, 81, best_weight as int),
                    slots_scanned(b, t as int, id as int, best_weight as int),
                    point_of(best_value) == first_best(b, 81 + t * 81 + id),
                    best_weight == best_weight_of(b, best_value),
                decreases 81 - id,
            {
                proof {
                    lemma_slot_point(t as int, id as int);
                    lemma_slot_id(id as int, 0, 0);
                    assert(slot_open(b, t as int, id as int / 9, id as int % 9) == slot_open(b, t as int, id as int / 9, id as int % 9));
                }
                if (f >> (id as u128)) & 1u128 == 1u128 {
                    proof {
                        assert(bit128(f, id as int));
                    }
                    let c = self.pos_indices(t, id);
                    let w = count_bits(c);
                    proof {
                        lemma_count_true(
                            9,
                            |p: int| bit16(c, p),
                            |p: int| legal(b, cell_of(t as int, id as int / 9, p), id as int % 9 + 1),
                        );
                    }
                    if w == 0 {
                        assert(open_slot(b, t as int, id as int / 9, id as int % 9) && slot_weight(b, t as int, id as int / 9, id as int % 9) == 0);
                        return ShowKinds::FAILED;
                    }
                    if w < best_weight {
                        best_weight = w;
                        best_value = ShowKinds::PICKVAL([t, id], c);
                    }
                } else {
                    proof {
                        assert(!bit128(f, id as int));
                    }
                }
                id = id + 1;
            }
            proof {
                assert forall|t2: int, id2: int|
                    0 <= t2 < 3 && 0 <= id2 < 81 && (t2 < t + 1 || (t2 == t + 1 && id2 < 0)) && #[trigger] open_slot(
                        b,
                        t2,
                        id2 / 9,
                        id2 % 9,
                    ) implies 1 <= slot_weight(b, t2, id2 / 9, id2 % 9) && best_weight <= slot_weight(b, t2, id2 / 9, id2 % 9) by {}
            }
            t = t + 1;
        }
        proof {
            assert forall|i: int| #[trigger] free_cell(b, i) implies 1 <= cell_weight(b, i) && best_weight <= cell_weight(b, i) && cell_weight(b, i) <= 9 by {
                lemma_count_true(9, |v: int| legal(b, i, v + 1), |v: int| legal(b, i, v + 1));
            }
            assert forall|ht: int, hi: int, v: int| #[trigger] open_slot(b, ht, hi, v) implies 1 <= slot_weight(b, ht, hi, v) && best_weight <= slot_weight(b, ht, hi, v) && slot_weight(b, ht, hi, v) <= 9 by {
                lemma_slot_id(0, hi, v);
                assert(open_slot(b, ht, (hi * 9 + v) / 9, (hi * 9 + v) % 9));
                lemma_count_true(9, |p: int| legal(b, cell_of(ht, hi, p), v + 1), |p: int| legal(b, cell_of(ht, hi, p), v + 1));
            }
            if best_value is SOLVED {
                lemma_complete_is_solution(b);
            }
        }
        best_value
    }

    /// The board with every cell empty.
    fn empty() -> (g: Game)
        ensures
            g@.well_formed(),
            forall|i: int| 0 <= i < 81 ==> g@.cells[i] == 0,
    {
        let g = Game {
            board: [0u8; 81],
            frees: [ALL81; 4],
            house_masks: [ALL9; 27],
            occupied: [ALL9; 27],
            value_masks: [ALL9; 27],
            conflict: false,
        };
        proof {
            let s = g@;
            lemma_empty_grid(s.cells);
            assert forall|i: int| 0 <= i < 81 implies (bit128(s.frees[3], i) <==> #[trigger] s.cells[i] == 0) by {
                lemma_all_set(i);
            }
            assert forall|ht: int, hi: int, v: int| 0 <= ht < 3 && 0 <= hi < 9 && 0 <= v < 9 implies {
                &&& (bit128(s.frees[ht], hi * 9 + v) <==> #[trigger] slot_open(s.cells, ht, hi, v))
                &&& (bit16(s.house_masks[ht * 9 + hi], v) <==> slot_open(s.cells, ht, hi, v))
                &&& (bit16(s.value_masks[v * 3 + ht], hi) <==> slot_open(s.cells, ht, hi, v))
            } by {
                lemma_all_set(hi * 9 + v);
                lemma_all_set(v);
                lemma_all_set(hi);
            }
            assert forall|ht: int, hi: int, p: int| 0 <= ht < 3 && 0 <= hi < 9 && 0 <= p < 9 implies (bit16(
                s.occupied[ht * 9 + hi],
                p,
            ) <==> s.cells[#[trigger] cell_of(ht, hi, p)] == 0) by {
                lemma_cell_of(ht, hi, p);
                lemma_all_set(p);
            }
        }
        g
    }

    /// Builds the board holding the given digits (0 for an empty cell).
    /// Each given is placed through the masks; if a given clashes with an
    /// earlier one, the board is marked as clashing and its masks are all
    /// cleared to zero.
    pub fn init_board(board: [u8; 81]) -> (g: Game)
        requires
            forall|i: int| 0 <= i < 81 ==> board[i] <= 9,
        ensures
            g@.well_formed(),
            g@.cells == board@,
            g@.conflict == !consistent(board@),
            g@.conflict ==> g@.masks_cleared(),
    {
        let mut g = Game::empty();
        let mut i: usize = 0;
        while i < 81
            invariant
                i <= 81,
                g@.well_formed(),
                forall|j: int| 0 <= j < i ==> g@.cells[j] == board[j],
                forall|j: int| i <= j < 81 ==> g@.cells[j] == 0,
                forall|j: int| 0 <= j < 81 ==> board[j] <= 9,
            decreases 81 - i,
        {
            let val = board[i];
            if val != 0 {
                if g.conflict {
                    proof {
                        lemma_clash_stays(g@.cells, i as int, val);
                    }
                    g.board[i] = val;
                } else {
                    let c = g.candidates(i);
                    if (c >> ((val - 1) as u16)) & 1u16 == 1u16 {
                        proof {
                            assert(bit16(c, (val - 1) as int));
                        }
                        g.unsafe_choose(i, (val - 1) as usize);
                    } else {
                        proof {
                            assert(!bit16(c, (val - 1) as int));
                            lemma_illegal_clashes(g@.cells, i as int, val);
                        }
                        g.board[i] = val;
                        g.conflict = true;
                        g.frees = [0u128; 4];
                        g.house_masks = [0u16; 27];
                        g.occupied = [0u16; 27];
                        g.value_masks = [0u16; 27];
                    }
                }
            }
            i = i + 1;
        }
        assert(g@.cells =~= board@);
        g
    }

    /// Reads a board from 81 characters in row-major order: `.` or `0` for
    /// an empty cell, `1` to `9` for a given digit.
    pub fn parse(s: &str) -> (r: Result<Game, ParseGameError>)
        ensures
            parse_result(
                s@,
                match r {
                    Ok(g) => Ok(g@.cells),
                    Err(e) => Err(e),
                },
            ),
            r matches Ok(g) ==> g@.well_formed() && g@.conflict == !consistent(g@.cells),
            r matches Ok(g) ==> (g@.conflict ==> g@.masks_cleared()),
    {
        let mut cells: Vec<u8> = Vec::new();
        for c in it: s.chars()
            invariant
                it.seq() == s@,
                cells.len() == it.index(),
                forall|j: int| 0 <= j < it.index() ==> #[trigger] cell_char(s@[j]),
                forall|j: int| 0 <= j < it.index() ==> cells@[j] == char_value(s@[j]) && cells@[j] <= 9,
        {
            if c == '.' || c == '0' {
                cells.push(0);
            } else if '1' <= c && c <= '9' {
                cells.push((c as u32 - '0' as u32) as u8);
            } else {
                let ghost i = it.index();
                assert(s@[i] == c && !cell_char(c));
                return Err(ParseGameError::IllegalCharacter(c));
            }
        }
        if cells.len() != 81 {
            return Err(ParseGameError::IncorrectLength);
        }
        let mut board = [0u8; 81];
        let mut i: usize = 0;
        while i < 81
            invariant
                i <= 81,
                cells.len() == 81,
                forall|j: int| 0 <= j < i ==> board[j] == cells@[j],
                forall|j: int| 0 <= j < 81 ==> cells@[j] <= 9,
            decreases 81 - i,
        {
            board[i] = cells[i];
            i = i + 1;
        }
        assert(board@ =~= s@.map_values(|c: char| char_value(c)));
        Ok(Game::init_board(board))
    }

    /// The board as 81 characters in row-major order, `.` for an empty cell.
    pub fn to_string(&self) -> (r: String)
        requires
            self@.well_formed(),
        ensures
            r@ == self@.cells.map_values(|x: u8| value_char(x)),
    {
        let mut r = String::new();
        let mut i: usize = 0;
        while i < 81
            invariant
                i <= 81,
                self@.well_formed(),
                r@ == self@.cells.take(i as int).map_values(|x: u8| value_char(x)),
            decreases 81 - i,
        {
            let x = self.board[i];
            let c = if x == 0 {
                '.'
            } else {
                (x + 48u8) as char
            };
            proof {
                assert(self@.cells.take(i + 1) =~= self@.cells.take(i as int).push(x));
            }
            push_char(&mut r, c);
            proof {
                assert(r@ =~= self@.cells.take(i + 1).map_values(|x: u8| value_char(x)));
            }
            i = i + 1;
        }
        proof {
            assert(self@.cells.take(81) =~= self@.cells);
        }
        r
    }

    /// The decision point of plain chronological search: the first free
    /// cell with its options. Reports `FAILED` when that cell has no option,
    /// when two givens clash, or when no cell is free but some digit is
    /// missing from a house; `SOLVED` when no point is left.
    pub fn first_free(&self) -> (r: ShowKinds)
        requires
            self@.well_formed(),
        ensures
            r is SOLVED <==> !self@.conflict && complete(self@.cells),
            r is FAILED ==> self@.conflict || dead_point(self@.cells),
            self@.conflict ==> r is FAILED,
            !self@.conflict && first_zero(self@.cells, 0) < 81 ==> r is PICKIDX || forall|v: int|
                0 <= v < 9 ==> !#[trigger] legal(self@.cells, first_zero(self@.cells, 0), v + 1),
            r matches ShowKinds::PICKIDX(i, c) ==> {
                &&& !self@.conflict
                &&& i == first_zero(self@.cells, 0)
                &&& free_cell(self@.cells, i as int)
                &&& forall|j: int| 0 <= j < i ==> !#[trigger] free_cell(self@.cells, j)
                &&& forall|v: int| 0 <= v < 9 ==> #[trigger] bit16(c, v) == legal(self@.cells, i as int, v + 1)
            },
            !(r is PICKVAL),
    {
        if self.conflict {
            return ShowKinds::FAILED;
        }
        let ghost b = self@.cells;
        proof {
            lemma_first_zero(b, 0);
        }
        let mut i: usize = 0;
        while i < 81
            invariant
                i <= 81,
                self@.well_formed(),
                !self@.conflict,
                b == self@.cells,
                forall|j: int| 0 <= j < i ==> !#[trigger] free_cell(b, j),
            decreases 81 - i,
        {
            if self.board[i] == 0 {
                proof {
                    lemma_first_zero(b, 0);
                    if first_zero(b, 0) < i {
                        assert(!free_cell(b, first_zero(b, 0)));
                    }
                    if first_zero(b, 0) > i {
                        assert(b[i as int] != 0);
                    }
                    assert(first_zero(b, 0) == i);
                }
                let c = self.candidates(i);
                if c == 0 {
                    proof {
                        assert forall|v: int| 0 <= v < 9 implies !#[trigger] legal(b, i as int, v + 1) by {
                            lemma_zero16(v);
                        }
                        lemma_count_true(9, |v: int| legal(b, i as int, v + 1), |v: int| legal(b, i as int, v + 1));
                        assert(free_cell(b, i as int) && cell_weight(b, i as int) == 0);
                    }
                    return ShowKinds::FAILED;
                }
                return ShowKinds::PICKIDX(i, c);
            }
            i = i + 1;
        }
        proof {
            lemma_first_zero(b, 0);
            if first_zero(b, 0) < 81 {
                assert(free_cell(b, first_zero(b, 0)));
            }
        }
        let mut t: usize = 0;
        while t < 3
            invariant
                t <= 3,
                self@.well_formed(),
                !self@.conflict,
                b == self@.cells,
                forall|j: int| 0 <= j < 81 ==> !#[trigger] free_cell(b, j),
                first_zero(b, 0) >= 81,
                forall|ht: int, id: int| 0 <= ht < t && 0 <= id < 81 ==> !#[trigger] open_slot(b, ht, id / 9, id % 9),
            decreases 3 - t,
        {
            let f = self.frees[t];
            let mut id: usize = 0;
            while id < 81
                invariant
                    t < 3,
                    id <= 81,
                    self@.well_formed(),
                    !self@.conflict,
                    b == self@.cells,
                    f == self@.frees[t as int],
                    forall|j: int| 0 <= j < 81 ==> !#[trigger] free_cell(b, j),
                    first_zero(b, 0) >= 81,
                first_zero(b, 0) >= 81,
                    forall|ht: int, id2: int|
                        0 <= ht < t && 0 <= id2 < 81 ==> !#[trigger] open_slot(b, ht, id2 / 9, id2 % 9),
                    forall|id2: int| 0 <= id2 < id ==> !#[trigger] open_slot(b, t as int, id2 / 9, id2 % 9),
                decreases 81 - id,
            {
                proof {
                    lemma_slot_id(id as int, 0, 0);
                    assert(slot_open(b, t as int, id as int / 9, id as int % 9) == slot_open(b, t as int, id as int / 9, id as int % 9));
                }
                if (f >> (id as u128)) & 1u128 == 1u128 {
                    proof {
                        let (hi, v) = (id as int / 9, id as int % 9);
                        assert(bit128(f, id as int));
                        assert forall|p: int| 0 <= p < 9 implies !#[trigger] legal(b, cell_of(t as int, hi, p), v + 1) by {
                            lemma_cell_of(t as int, hi, p);
                            assert(!free_cell(b, cell_of(t as int, hi, p)));
                        }
                        lemma_count_true(
                            9,
                            |p: int| legal(b, cell_of(t as int, hi, p), v + 1),
                            |p: int| legal(b, cell_of(t as int, hi, p), v + 1),
                        );
                        assert(open_slot(b, t as int, hi, v) && slot_weight(b, t as int, hi, v) == 0);
                    }
                    return ShowKinds::FAILED;
                }
                id = id + 1;
            }
            t = t + 1;
        }
        proof {
            assert forall|ht: int, hi: int, v: int| !#[trigger] open_slot(b, ht, hi, v) by {
                if 0 <= hi < 9 && 0 <= v < 9 && 0 <= ht < 3 {
                    lemma_slot_id(0, hi, v);
                    assert(!open_slot(b, ht, (hi * 9 + v) / 9, (hi * 9 + v) % 9));
                }
            }
        }
        ShowKinds::SOLVED
    }

    /// The number of empty cells.
    pub fn free_cells(&self) -> (n: usize)
        requires
            self@.well_formed(),
        ensures
            n == count_free(self@.cells),
    {
        let mut n: usize = 0;
        let mut i: usize = 0;
        while i < 81
            invariant
                i <= 81,
                self@.well_formed(),
                n == count_free(self@.cells.take(i as int)),
                n <= i,
            decreases 81 - i,
        {
            proof {
                assert(self@.cells.take(i + 1).drop_last() =~= self@.cells.take(i as int));
            }
            if self.board[i] == 0 {
                n = n + 1;
            }
            i = i + 1;
        }
        proof {
            assert(self@.cells.take(81) =~= self@.cells);
        }
        n
    }
}

impl std::str::FromStr for Game {
    type Err = ParseGameError;

    fn from_str(s: &str) -> Result<Game, ParseGameError> {
        Game::parse(s)
    }
}

} // verus!
