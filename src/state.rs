//! The board state as mathematical values, the XOR toggles that a placement
//! applies to its masks, and the proofs that the toggles keep the masks in
//! agreement with the cells and undo themselves.
use vstd::prelude::*;

use crate::bits::{
    bit128, bit16, flag128, flag16, lemma_toggle128, lemma_toggle128_facts, lemma_toggle16,
    lemma_toggle16_facts, ALL81, ALL9,
};
use crate::grid::{
    cell_of, consistent, house_has, house_of, lemma_cell_of, lemma_clear_houses, lemma_house_of,
    lemma_place_houses, legal, pos_in, slot_open, valid_cells,
};

verus! {

/// Everything a `Game` holds, as mathematical values.
///
/// A set bit in a mask means "still open": a free cell, a digit missing from a
/// house, an empty position of a house.
pub struct BoardState {
    /// The 81 cells, row-major; 0 is empty.
    pub cells: Seq<u8>,
    /// `frees[ht]` for a house type `ht` in 0..3 has bit `hi * 9 + v` set while
    /// digit `v + 1` is missing from house `hi`; `frees[3]` has bit `idx` set
    /// while cell `idx` is empty.
    pub frees: Seq<u128>,
    /// Entry `ht * 9 + hi`: bit `v` set while digit `v + 1` is missing from
    /// house `hi` of type `ht`.
    pub house_masks: Seq<u16>,
    /// Entry `ht * 9 + hi`: bit `p` set while position `p` of that house is
    /// empty.
    pub occupied: Seq<u16>,
    /// Entry `v * 3 + ht`: bit `hi` set while digit `v + 1` is missing from
    /// house `hi` of type `ht`.
    pub value_masks: Seq<u16>,
    /// Two givens clash in some house.
    pub conflict: bool,
}

impl BoardState {
    /// Every mask says of the cells what its field documents.
    pub open spec fn masks_agree(self) -> bool {
        let b = self.cells;
        &&& forall|i: int| 0 <= i < 81 ==> (bit128(self.frees[3], i) <==> #[trigger] b[i] == 0)
        &&& forall|ht: int, hi: int, v: int|
            0 <= ht < 3 && 0 <= hi < 9 && 0 <= v < 9 ==> {
                &&& (bit128(self.frees[ht], hi * 9 + v) <==> #[trigger] slot_open(b, ht, hi, v))
                &&& (bit16(self.house_masks[ht * 9 + hi], v) <==> slot_open(b, ht, hi, v))
                &&& (bit16(self.value_masks[v * 3 + ht], hi) <==> slot_open(b, ht, hi, v))
            }
        &&& forall|ht: int, hi: int, p: int|
            0 <= ht < 3 && 0 <= hi < 9 && 0 <= p < 9 ==> (bit16(self.occupied[ht * 9 + hi], p)
                <==> b[#[trigger] cell_of(ht, hi, p)] == 0)
        &&& forall|k: int| 0 <= k < 4 ==> #[trigger] self.frees[k] <= ALL81
        &&& forall|k: int|
            0 <= k < 27 ==> {
                &&& #[trigger] self.house_masks[k] <= ALL9
                &&& self.occupied[k] <= ALL9
                &&& self.value_masks[k] <= ALL9
            }
    }

    /// Every mask is zero: what a clashing board holds in place of masks.
    pub open spec fn masks_cleared(self) -> bool {
        &&& forall|k: int| 0 <= k < 4 ==> #[trigger] self.frees[k] == 0
        &&& forall|k: int|
            0 <= k < 27 ==> {
                &&& #[trigger] self.house_masks[k] == 0
                &&& self.occupied[k] == 0
                &&& self.value_masks[k] == 0
            }
    }

    /// The invariant of a `Game`: valid cells; `conflict` records exactly
    /// whether two digits clash; without a clash the masks agree with the
    /// cells, and with one every mask is zero.
    pub open spec fn well_formed(self) -> bool {
        &&& valid_cells(self.cells)
        &&& self.frees.len() == 4
        &&& self.house_masks.len() == 27
        &&& self.occupied.len() == 27
        &&& self.value_masks.len() == 27
        &&& self.conflict == !consistent(self.cells)
        &&& !self.conflict ==> self.masks_agree()
        &&& self.conflict ==> self.masks_cleared()
    }

    /// The mask toggles for digit `val + 1` at cell `idx`: one bit in each of
    /// the three houses' entries of every mask family, and the cell's bit.
    pub open spec fn toggled(self, idx: int, val: int) -> BoardState {
        let r = house_of(0, idx);
        let c = house_of(1, idx);
        let k = house_of(2, idx);
        let f = self.frees;
        let h = self.house_masks;
        let o = self.occupied;
        let m = self.value_masks;
        BoardState {
            cells: self.cells,
            frees: f.update(0, f[0] ^ flag128(r * 9 + val)).update(1, f[1] ^ flag128(c * 9 + val)).update(
                2,
                f[2] ^ flag128(k * 9 + val),
            ).update(3, f[3] ^ flag128(idx)),
            house_masks: h.update(r, h[r] ^ flag16(val)).update(9 + c, h[9 + c] ^ flag16(val)).update(
                18 + k,
                h[18 + k] ^ flag16(val),
            ),
            occupied: o.update(r, o[r] ^ flag16(c)).update(9 + c, o[9 + c] ^ flag16(r)).update(
                18 + k,
                o[18 + k] ^ flag16(pos_in(2, idx)),
            ),
            value_masks: m.update(val * 3, m[val * 3] ^ flag16(r)).update(
                val * 3 + 1,
                m[val * 3 + 1] ^ flag16(c),
            ).update(val * 3 + 2, m[val * 3 + 2] ^ flag16(k)),
            conflict: self.conflict,
        }
    }

    /// The state after writing digit `val + 1` into cell `idx`.
    pub open spec fn placed(self, idx: int, val: int) -> BoardState {
        BoardState { cells: self.cells.update(idx, (val + 1) as u8), ..self }.toggled(idx, val)
    }

    /// The state after emptying cell `idx`.
    pub open spec fn cleared(self, idx: int) -> BoardState {
        BoardState { cells: self.cells.update(idx, 0u8), ..self }.toggled(idx, self.cells[idx] - 1)
    }
}


/// The toggles for digit `val + 1` at cell `idx` keep the masks in agreement
/// with the cells whenever the cell changes between empty and filled and
/// exactly the three slots of that digit in the cell's houses change.
proof fn lemma_toggles_agree(s: BoardState, nb: Seq<u8>, idx: int, val: int)
    requires
        s.well_formed(),
        s.masks_agree(),
        0 <= idx < 81,
        0 <= val < 9,
        nb.len() == 81,
        forall|i: int| 0 <= i < 81 && i != idx ==> nb[i] == s.cells[i],
        (nb[idx] == 0) != (s.cells[idx] == 0),
        forall|ht: int, hi: int, v: int|
            0 <= ht < 3 && 0 <= hi < 9 && 0 <= v < 9 ==> #[trigger] slot_open(nb, ht, hi, v) == (
            slot_open(s.cells, ht, hi, v) != (hi == house_of(ht, idx) && v == val)),
    ensures
        (BoardState { cells: nb, ..s }).toggled(idx, val).masks_agree(),
{
    let t = BoardState { cells: nb, ..s }.toggled(idx, val);
    let b = s.cells;
    let r = house_of(0, idx);
    let c = house_of(1, idx);
    let k = house_of(2, idx);
    lemma_house_of(0, idx);
    lemma_house_of(1, idx);
    lemma_house_of(2, idx);
    assert forall|i: int| 0 <= i < 81 implies (bit128(t.frees[3], i) <==> #[trigger] nb[i] == 0) by {
        lemma_toggle128(s.frees[3], idx, i);
    }
    assert forall|ht: int, hi: int, v: int| 0 <= ht < 3 && 0 <= hi < 9 && 0 <= v < 9 implies {
        &&& (bit128(t.frees[ht], hi * 9 + v) <==> #[trigger] slot_open(nb, ht, hi, v))
        &&& (bit16(t.house_masks[ht * 9 + hi], v) <==> slot_open(nb, ht, hi, v))
        &&& (bit16(t.value_masks[v * 3 + ht], hi) <==> slot_open(nb, ht, hi, v))
    } by {
        let h = house_of(ht, idx);
        assert(slot_open(b, ht, hi, v) == slot_open(b, ht, hi, v));
        lemma_toggle128(s.frees[ht], h * 9 + val, hi * 9 + v);
        lemma_toggle16(s.house_masks[ht * 9 + hi], val, v);
        lemma_toggle16(s.value_masks[v * 3 + ht], h, hi);
    }
    assert forall|ht: int, hi: int, p: int| 0 <= ht < 3 && 0 <= hi < 9 && 0 <= p < 9 implies (bit16(
        t.occupied[ht * 9 + hi],
        p,
    ) <==> nb[#[trigger] cell_of(ht, hi, p)] == 0) by {
        lemma_cell_of(ht, hi, p);
        lemma_toggle16(s.occupied[ht * 9 + hi], pos_in(ht, idx), p);
        assert(b[cell_of(ht, hi, p)] == 0 <==> bit16(s.occupied[ht * 9 + hi], p));
    }
    lemma_toggle128_facts(s.frees[0], r * 9 + val);
    lemma_toggle128_facts(s.frees[1], c * 9 + val);
    lemma_toggle128_facts(s.frees[2], k * 9 + val);
    lemma_toggle128_facts(s.frees[3], idx);
    lemma_toggle16_facts(s.house_masks[r], val);
    lemma_toggle16_facts(s.house_masks[9 + c], val);
    lemma_toggle16_facts(s.house_masks[18 + k], val);
    lemma_toggle16_facts(s.occupied[r], c);
    lemma_toggle16_facts(s.occupied[9 + c], r);
    lemma_toggle16_facts(s.occupied[18 + k], pos_in(2, idx));
    lemma_toggle16_facts(s.value_masks[val * 3], r);
    lemma_toggle16_facts(s.value_masks[val * 3 + 1], c);
    lemma_toggle16_facts(s.value_masks[val * 3 + 2], k);
    assert forall|k2: int| 0 <= k2 < 4 implies #[trigger] t.frees[k2] <= ALL81 by {}
    assert forall|k2: int| 0 <= k2 < 27 implies {
        &&& #[trigger] t.house_masks[k2] <= ALL9
        &&& t.occupied[k2] <= ALL9
        &&& t.value_masks[k2] <= ALL9
    } by {
        assert(s.house_masks[k2] <= ALL9);
    }
}


/// Writing a legal digit keeps the state well formed and free of clashes.
pub proof fn lemma_placed_well_formed(s: BoardState, idx: int, val: int)
    requires
        s.well_formed(),
        !s.conflict,
        0 <= val < 9,
        legal(s.cells, idx, val + 1),
    ensures
        s.placed(idx, val).well_formed(),
        !s.placed(idx, val).conflict,
        s.placed(idx, val).cells == s.cells.update(idx, (val + 1) as u8),
{
    let b = s.cells;
    let d = (val + 1) as u8;
    let nb = b.update(idx, d);
    lemma_place_houses(b, idx, d);
    assert forall|ht: int, hi: int, v: int|
        0 <= ht < 3 && 0 <= hi < 9 && 0 <= v < 9 implies #[trigger] slot_open(nb, ht, hi, v) == (
    slot_open(b, ht, hi, v) != (hi == house_of(ht, idx) && v == val)) by {
        assert(house_has(nb, ht, hi, v + 1) == house_has(nb, ht, hi, v + 1));
        if hi == house_of(ht, idx) && v == val {
            assert(!house_has(b, ht, house_of(ht, idx), d as int));
        }
    }
    lemma_toggles_agree(s, nb, idx, val);
    assert forall|ht: int, i: int, j: int|
        0 <= ht < 3 && 0 <= i < 81 && 0 <= j < 81 && i != j && #[trigger] house_of(ht, i)
            == #[trigger] house_of(ht, j) && nb[i] != 0 implies nb[i] != nb[j] by {
        if i == idx && nb[j] == d {
            assert(house_has(b, ht, house_of(ht, idx), d as int));
        }
        if j == idx && nb[i] == d {
            assert(house_has(b, ht, house_of(ht, idx), d as int));
        }
    }
}

/// Emptying a filled cell keeps the state well formed and free of clashes.
pub proof fn lemma_cleared_well_formed(s: BoardState, idx: int)
    requires
        s.well_formed(),
        !s.conflict,
        0 <= idx < 81,
        s.cells[idx] != 0,
    ensures
        s.cleared(idx).well_formed(),
        !s.cleared(idx).conflict,
        s.cleared(idx).cells == s.cells.update(idx, 0u8),
{
    let b = s.cells;
    let nb = b.update(idx, 0u8);
    let val = b[idx] - 1;
    lemma_clear_houses(b, idx);
    assert forall|ht: int, hi: int, v: int|
        0 <= ht < 3 && 0 <= hi < 9 && 0 <= v < 9 implies #[trigger] slot_open(nb, ht, hi, v) == (
    slot_open(b, ht, hi, v) != (hi == house_of(ht, idx) && v == val)) by {
        assert(house_has(nb, ht, hi, v + 1) == house_has(nb, ht, hi, v + 1));
        if hi == house_of(ht, idx) && v == val {
            assert(house_of(ht, idx) == house_of(ht, idx));
            assert(house_has(b, ht, house_of(ht, idx), b[idx] as int));
        }
    }
    lemma_toggles_agree(s, nb, idx, val);
    assert forall|ht: int, i: int, j: int|
        0 <= ht < 3 && 0 <= i < 81 && 0 <= j < 81 && i != j && #[trigger] house_of(ht, i)
            == #[trigger] house_of(ht, j) && nb[i] != 0 implies nb[i] != nb[j] by {
        assert(b[i] != b[j]);
    }
}


/// Placing a legal digit and then emptying the same cell gives back every
/// cell and every mask bit for bit.
pub proof fn lemma_place_then_clear(s: BoardState, idx: int, val: int)
    requires
        s.well_formed(),
        !s.conflict,
        0 <= val < 9,
        legal(s.cells, idx, val + 1),
    ensures
        s.placed(idx, val).cleared(idx) == s,
{
    let t = s.placed(idx, val);
    let u = t.cleared(idx);
    let r = house_of(0, idx);
    let c = house_of(1, idx);
    let k = house_of(2, idx);
    lemma_house_of(0, idx);
    lemma_house_of(1, idx);
    lemma_house_of(2, idx);
    lemma_toggle128_facts(s.frees[0], r * 9 + val);
    lemma_toggle128_facts(s.frees[1], c * 9 + val);
    lemma_toggle128_facts(s.frees[2], k * 9 + val);
    lemma_toggle128_facts(s.frees[3], idx);
    lemma_toggle16_facts(s.house_masks[r], val);
    lemma_toggle16_facts(s.house_masks[9 + c], val);
    lemma_toggle16_facts(s.house_masks[18 + k], val);
    lemma_toggle16_facts(s.occupied[r], c);
    lemma_toggle16_facts(s.occupied[9 + c], r);
    lemma_toggle16_facts(s.occupied[18 + k], pos_in(2, idx));
    lemma_toggle16_facts(s.value_masks[val * 3], r);
    lemma_toggle16_facts(s.value_masks[val * 3 + 1], c);
    lemma_toggle16_facts(s.value_masks[val * 3 + 2], k);
    assert(u.cells =~= s.cells);
    assert(u.frees =~= s.frees);
    assert(u.house_masks =~= s.house_masks);
    assert(u.occupied =~= s.occupied);
    assert(u.value_masks =~= s.value_masks);
}

} // verus!
